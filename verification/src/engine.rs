//! The abstract engine interface the server programs against.

use vstd::prelude::*;
use crate::errors::KvsError;

verus! {

/// The three operations every storage engine offers.  Implementations
/// state their own guarantees on their inherent methods; this trait only
/// fixes the shapes the server consumes.
pub trait KvsEngine {
    /// Gets the string value of a given string key.
    fn get(&mut self, key: String) -> Result<Option<String>, KvsError>;

    /// Sets the value of a string key to a string.
    fn set(&mut self, key: String, value: String) -> Result<(), KvsError>;

    /// Removes a given key; `KeyNotFound` when it is absent.
    fn remove(&mut self, key: String) -> Result<(), KvsError>;
}

} // verus!
