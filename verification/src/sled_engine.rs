//! The alternative engine, backed by the sled embedded database.
//!
//! Only its boundary is specified: sled does the storage work behind
//! trusted calls, and the verified code here fixes how raw results are
//! turned into the store's answers and errors.

use vstd::prelude::*;
use vstd::string::StringExecFns;
use vstd::utf8::{decode_utf8, valid_utf8};

use crate::codec::string_from_utf8;
use crate::error::KvsError;

verus! {

#[verifier::external_type_specification]
#[verifier::external_body]
pub struct ExDb(sled::Db);

/// Relies on sled `Db`'s derived `Clone`: the clone is another handle to
/// the same shared database.
pub assume_specification[ <sled::Db as core::clone::Clone>::clone ](db: &sled::Db) -> sled::Db;

/// A key/value engine that stores everything in a sled database.
#[derive(Clone)]
pub struct SledKvsEngine {
    db: sled::Db,
}

/// Relies on sled's `Tree::insert`, reached through `Db`: it installs the
/// mapping from the key's bytes to the value's bytes, or reports the sled
/// error, rendered as its message.
#[verifier::external_body]
fn sled_insert(db: &sled::Db, key: &String, value: &String) -> (r: Result<(), String>) {
    match db.insert(key.as_bytes(), value.as_bytes()) {
        Ok(_prev) => Ok(()),
        Err(e) => Err(e.to_string()),
    }
}

/// Relies on sled's `Tree::flush`: it persists prior writes, or reports
/// the sled error, rendered as its message.
#[verifier::external_body]
fn sled_flush(db: &sled::Db) -> (r: Result<(), String>) {
    match db.flush() {
        Ok(_n) => Ok(()),
        Err(e) => Err(e.to_string()),
    }
}

/// Relies on sled's `Tree::get`: it hands back the bytes stored under the
/// key's bytes, nothing when the key is absent, or the sled error,
/// rendered as its message.
#[verifier::external_body]
fn sled_get(db: &sled::Db, key: &String) -> (r: Result<Option<Vec<u8>>, String>) {
    match db.get(key.as_bytes()) {
        Ok(v) => Ok(v.map(|ivec| ivec.to_vec())),
        Err(e) => Err(e.to_string()),
    }
}

/// Relies on sled's `Tree::remove`: it deletes the mapping for the key's
/// bytes and tells whether one was there, or reports the sled error,
/// rendered as its message.
#[verifier::external_body]
fn sled_remove(db: &sled::Db, key: &String) -> (r: Result<bool, String>) {
    match db.remove(key.as_bytes()) {
        Ok(prev) => Ok(prev.is_some()),
        Err(e) => Err(e.to_string()),
    }
}

/// What `get` makes of the raw bytes sled hands back: an absent key yields
/// nothing, a UTF-8 value decodes to its characters, and anything else is
/// a `Utf8` error.
pub fn decode_sled_value(raw: Option<Vec<u8>>) -> (r: Result<Option<String>, KvsError>)
    ensures
        match raw {
            None => (r matches Ok(o) && o is None),
            Some(b) => {
                &&& valid_utf8(b@) ==> (r matches Ok(o) && o matches Some(s) && s@ == decode_utf8(
                    b@,
                ))
                &&& !valid_utf8(b@) ==> (r matches Err(e) && e is Utf8)
            },
        },
{
    match raw {
        None => Ok(None),
        Some(bytes) => match string_from_utf8(bytes) {
            Some(s) => Ok(Some(s)),
            None => Err(KvsError::Utf8(String::from_str("stored value is not valid UTF-8"))),
        },
    }
}

/// What `remove` makes of sled's answers: no prior mapping is exactly
/// [`KvsError::KeyNotFound`]; a removal that flushed is success; a removal
/// whose flush failed reports the sled error.
pub fn remove_outcome(was_there: bool, flushed: Result<(), String>) -> (r: Result<(), KvsError>)
    ensures
        !was_there ==> (r matches Err(e) && e is KeyNotFound),
        was_there ==> match flushed {
            Ok(_u) => r is Ok,
            Err(m) => (r matches Err(e) && e matches KvsError::Sled(s) && s@ == m@),
        },
{
    if was_there {
        match flushed {
            Ok(_u) => Ok(()),
            Err(m) => Err(KvsError::Sled(m)),
        }
    } else {
        Err(KvsError::KeyNotFound)
    }
}

impl SledKvsEngine {
    /// The database handle the engine works on.
    pub closed spec fn spec_db(self) -> sled::Db {
        self.db
    }

    /// Wrap an open sled database.
    pub fn new(db: sled::Db) -> (r: SledKvsEngine)
        ensures
            r.spec_db() == db,
    {
        SledKvsEngine { db }
    }

    /// Set the value of a string key to a string, then flush.
    pub fn set(&self, key: String, value: String) -> (r: Result<(), KvsError>)
        ensures
            r matches Err(e) ==> e is Sled,
    {
        match sled_insert(&self.db, &key, &value) {
            Ok(_u) => match sled_flush(&self.db) {
                Ok(_u2) => Ok(()),
                Err(m) => Err(KvsError::Sled(m)),
            },
            Err(m) => Err(KvsError::Sled(m)),
        }
    }

    /// Get the string value of a string key; an absent key yields nothing.
    pub fn get(&self, key: String) -> (r: Result<Option<String>, KvsError>)
        ensures
            r matches Err(e) ==> e is Sled || e is Utf8,
    {
        match sled_get(&self.db, &key) {
            Ok(raw) => decode_sled_value(raw),
            Err(m) => Err(KvsError::Sled(m)),
        }
    }

    /// Remove a given key; an absent key is `KeyNotFound`, and a real
    /// removal is flushed before it is reported.
    ///
    /// Only the calls into sled are trusted: the decision taken on sled's
    /// answers is [`remove_outcome`], whose contract pins it exactly.
    pub fn remove(&self, key: String) -> (r: Result<(), KvsError>)
        ensures
            r matches Err(e) ==> e is Sled || e is KeyNotFound,
    {
        match sled_remove(&self.db, &key) {
            Ok(was_there) => {
                let flushed = if was_there {
                    sled_flush(&self.db)
                } else {
                    Ok(())
                };
                remove_outcome(was_there, flushed)
            },
            Err(m) => Err(KvsError::Sled(m)),
        }
    }
}

} // verus!
