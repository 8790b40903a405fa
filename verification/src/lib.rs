//! A schema-versioned, file-backed key/value persistence layer for a desktop
//! application: four logical stores (application configuration, authentication
//! cookies, a crash-recoverable task archive, and the migration meta table
//! they all ride on), modelled over an embedded relational database file.
//!
//! The database file itself and all statement execution live outside this
//! crate; here the stores are specified and verified over an explicit model
//! of the database contents, and a host program maps each verified operation
//! to the corresponding SQL statement.
use vstd::prelude::*;

pub mod archive;
pub mod config;
pub mod cookies;
pub mod db;
pub mod json;
pub mod kv;

verus! {

/// The error taxonomy of the storage layer. Every fallible operation
/// surfaces exactly one of these; nothing is silently swallowed.
#[derive(Clone, Copy, Debug, PartialEq, Eq, Structural)]
pub enum StoreError {
    /// A connection was requested before `init_db`.
    NotInitialized,
    /// `init_db` was called while a connection is already open.
    AlreadyInitialized,
    /// A raw cookie header does not match the `name=value` pattern.
    InvalidCookie,
    /// A cookie `expires` attribute does not match the fixed calendar format.
    MalformedExpiry,
    /// A stored value does not deserialize into the expected shape.
    SerializationFailure,
    /// A filesystem step of import/export failed.
    IoFailure,
    /// An underlying statement failed to execute.
    QueryFailure,
}

impl StoreError {
    /// A short human-readable description, for hosts that log failures.
    pub fn describe(&self) -> (r: &'static str)
        ensures
            r@.len() > 0,
    {
        proof {
            reveal_strlit("database not initialized");
            reveal_strlit("database already initialized");
            reveal_strlit("invalid cookie");
            reveal_strlit("malformed expires date");
            reveal_strlit("serialization failure");
            reveal_strlit("io failure");
            reveal_strlit("query failure");
        }
        match self {
            StoreError::NotInitialized => "database not initialized",
            StoreError::AlreadyInitialized => "database already initialized",
            StoreError::InvalidCookie => "invalid cookie",
            StoreError::MalformedExpiry => "malformed expires date",
            StoreError::SerializationFailure => "serialization failure",
            StoreError::IoFailure => "io failure",
            StoreError::QueryFailure => "query failure",
        }
    }
}

} // verus!
