//! The alternative engine: the same interface realized by the embedded
//! `sled` B-tree database.
//!
//! The database itself lives behind trusted wrappers whose contracts speak
//! of `sled_view`, the byte map a `sled::Db` holds; the engine's own logic
//! (UTF-8 handling, `KeyNotFound` for absent keys) is verified against
//! those contracts.

use vstd::prelude::*;
use vstd::utf8::{decode_utf8, encode_utf8, valid_utf8};
use crate::codec::bytes_to_string;
use crate::engine::KvsEngine;
use crate::errors::KvsError;

verus! {

#[verifier::external_type_specification]
#[verifier::external_body]
/// The embedded database handle, opaque to verification.
pub struct ExDb(sled::Db);

/// The key/value byte map a `sled::Db` currently holds.
pub uninterp spec fn sled_view(db: sled::Db) -> Map<Seq<u8>, Seq<u8>>;

/// Relies on `sled::open`: opens (creating if needed) a database rooted at
/// the given directory.  What it holds depends on the disk, so nothing is
/// promised of the result's contents.
#[verifier::external_body]
fn sled_open(path: &str) -> (r: Result<sled::Db, KvsError>)
    ensures
        r matches Err(e) ==> e matches KvsError::SledError(m),
{
    match sled::open(path) {
        Ok(db) => Ok(db),
        Err(e) => Err(KvsError::SledError(format!("{}", e))),
    }
}

/// Relies on `sled::Config::temporary`: opens a database whose files live
/// in a fresh temporary directory and are removed when it is dropped; a
/// fresh directory means the database starts empty.
#[verifier::external_body]
fn sled_open_temporary() -> (r: Result<sled::Db, KvsError>)
    ensures
        r is Ok ==> (forall|k: Seq<u8>| !sled_view(r->Ok_0).contains_key(k)),
        r matches Err(e) ==> e matches KvsError::SledError(m),
{
    match sled::Config::new().temporary(true).open() {
        Ok(db) => Ok(db),
        Err(e) => Err(KvsError::SledError(format!("{}", e))),
    }
}

/// Relies on `sled::Tree::get`: returns the value bound to the key's
/// bytes, if any.
#[verifier::external_body]
fn sled_get(db: &sled::Db, key: &String) -> (r: Result<Option<Vec<u8>>, KvsError>)
    ensures
        r matches Ok(o) ==> (o is Some <==> sled_view(*db).contains_key(encode_utf8(key@))) && (
        o matches Some(v) ==> v@ == sled_view(*db)[encode_utf8(key@)]),
        r matches Err(e) ==> e matches KvsError::SledError(m),
{
    match db.get(key.as_bytes()) {
        Ok(o) => Ok(o.map(|ivec| AsRef::<[u8]>::as_ref(&ivec).to_vec())),
        Err(e) => Err(KvsError::SledError(format!("{}", e))),
    }
}

/// Relies on `sled::Tree::insert`: binds the key's bytes to the value's
/// bytes, replacing any earlier binding.
#[verifier::external_body]
fn sled_insert(db: &mut sled::Db, key: &String, value: &String) -> (r: Result<(), KvsError>)
    ensures
        r is Ok ==> sled_view(*final(db)) == sled_view(*old(db)).insert(
            encode_utf8(key@),
            encode_utf8(value@),
        ),
        r matches Err(e) ==> e matches KvsError::SledError(m),
{
    match db.insert(key.as_bytes(), value.as_bytes()) {
        Ok(_) => Ok(()),
        Err(e) => Err(KvsError::SledError(format!("{}", e))),
    }
}

/// Relies on `sled::Tree::remove`: unbinds the key's bytes and returns the
/// value they held, if any.
#[verifier::external_body]
fn sled_remove(db: &mut sled::Db, key: &String) -> (r: Result<Option<Vec<u8>>, KvsError>)
    ensures
        r matches Ok(o) ==> (o is Some <==> sled_view(*old(db)).contains_key(encode_utf8(key@)))
            && sled_view(*final(db)) == sled_view(*old(db)).remove(encode_utf8(key@)),
        r matches Err(e) ==> e matches KvsError::SledError(m),
{
    match db.remove(key.as_bytes()) {
        Ok(o) => Ok(o.map(|ivec| AsRef::<[u8]>::as_ref(&ivec).to_vec())),
        Err(e) => Err(KvsError::SledError(format!("{}", e))),
    }
}

/// Relies on `sled::Tree::flush`: makes earlier writes durable without
/// changing what the database holds.
#[verifier::external_body]
fn sled_flush(db: &mut sled::Db) -> (r: Result<(), KvsError>)
    ensures
        r is Ok ==> sled_view(*final(db)) == sled_view(*old(db)),
        r matches Err(e) ==> e matches KvsError::SledError(m),
{
    match db.flush() {
        Ok(_) => Ok(()),
        Err(e) => Err(KvsError::SledError(format!("{}", e))),
    }
}

/// The engine interface realized by an embedded `sled` database.
pub struct SledKvsEngine {
    db: sled::Db,
}

impl SledKvsEngine {
    /// The byte map the database holds.
    pub closed spec fn contents(self) -> Map<Seq<u8>, Seq<u8>> {
        sled_view(self.db)
    }

    /// Opens a sled store rooted at the given directory, creating it if it
    /// does not exist.
    pub fn open(path: &str) -> (r: Result<SledKvsEngine, KvsError>)
        ensures
            r matches Err(e) ==> e matches KvsError::SledError(m),
    {
        match sled_open(path) {
            Ok(db) => Ok(SledKvsEngine { db }),
            Err(e) => Err(e),
        }
    }

    /// Opens a sled store over a temporary directory that vanishes when
    /// the engine is dropped; it starts empty.
    pub fn open_temporary() -> (r: Result<SledKvsEngine, KvsError>)
        ensures
            r matches Ok(e) ==> (forall|k: Seq<u8>| !e.contents().contains_key(k)),
            r matches Err(e) ==> e matches KvsError::SledError(m),
    {
        match sled_open_temporary() {
            Ok(db) => Ok(SledKvsEngine { db }),
            Err(e) => Err(e),
        }
    }

    /// Gets the string value of a given string key; `None` when the key's
    /// bytes are unbound, `Utf8Error` when the bound bytes are not UTF-8.
    pub fn get_value(&mut self, key: String) -> (r: Result<Option<String>, KvsError>)
        ensures
            *final(self) == *old(self),
            r matches Ok(o) ==> (o is Some <==> old(self).contents().contains_key(
                encode_utf8(key@),
            )) && (o matches Some(v) ==> valid_utf8(
                old(self).contents()[encode_utf8(key@)],
            ) && v@ == decode_utf8(old(self).contents()[encode_utf8(key@)])),
            r matches Err(e) ==> (e matches KvsError::SledError(m) || e is Utf8Error),
            (r matches Err(e) && e is Utf8Error) ==> old(self).contents().contains_key(
                encode_utf8(key@),
            ) && !valid_utf8(old(self).contents()[encode_utf8(key@)]),
    {
        match sled_get(&self.db, &key) {
            Ok(Some(bytes)) => match bytes_to_string(bytes) {
                Ok(s) => Ok(Some(s)),
                Err(_) => Err(KvsError::Utf8Error),
            },
            Ok(None) => Ok(None),
            Err(e) => Err(e),
        }
    }

    /// Binds the key to the value, replacing any earlier binding, and
    /// flushes.
    pub fn set_value(&mut self, key: String, value: String) -> (r: Result<(), KvsError>)
        ensures
            r is Ok ==> final(self).contents() == old(self).contents().insert(
                encode_utf8(key@),
                encode_utf8(value@),
            ),
            r matches Err(e) ==> e matches KvsError::SledError(m),
    {
        match sled_insert(&mut self.db, &key, &value) {
            Ok(()) => {},
            Err(e) => {
                return Err(e);
            },
        }
        match sled_flush(&mut self.db) {
            Ok(()) => Ok(()),
            Err(e) => Err(e),
        }
    }

    /// Unbinds the key and flushes; `KeyNotFound` when it was not bound.
    pub fn remove_value(&mut self, key: String) -> (r: Result<(), KvsError>)
        ensures
            r is Ok ==> old(self).contents().contains_key(encode_utf8(key@))
                && final(self).contents() == old(self).contents().remove(encode_utf8(key@)),
            !old(self).contents().contains_key(encode_utf8(key@)) ==> !(r is Ok),
            r matches Err(e) ==> (e is KeyNotFound || e matches KvsError::SledError(m)),
            (r matches Err(e) && e is KeyNotFound) ==> !old(self).contents().contains_key(
                encode_utf8(key@),
            ),
    {
        match sled_remove(&mut self.db, &key) {
            Ok(Some(_)) => {},
            Ok(None) => {
                return Err(KvsError::KeyNotFound);
            },
            Err(e) => {
                return Err(e);
            },
        }
        match sled_flush(&mut self.db) {
            Ok(()) => Ok(()),
            Err(e) => Err(e),
        }
    }
}

impl KvsEngine for SledKvsEngine {
    fn get(&mut self, key: String) -> Result<Option<String>, KvsError> {
        self.get_value(key)
    }

    fn set(&mut self, key: String, value: String) -> Result<(), KvsError> {
        self.set_value(key, value)
    }

    fn remove(&mut self, key: String) -> Result<(), KvsError> {
        self.remove_value(key)
    }
}

} // verus!
