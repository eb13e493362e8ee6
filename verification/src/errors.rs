//! Error kinds surfaced by the store.
//!
//! Absence of a record is never an error: lookups return `None` or an empty
//! collection, so callers can tell "never existed" from "failed to read".

use vstd::prelude::*;

verus! {

/// The reasons a store operation can fail.
#[derive(Clone, Copy, Debug, PartialEq, Eq, Structural)]
pub enum CryptoStoreError {
    /// The underlying storage could not be opened, or migration failed
    /// (for instance, the data on disk was written by a newer schema).
    Open,
    /// A write was attempted inside a read-only transaction.
    Access,
    /// A record could not be encoded into its storable envelope.
    Serialization,
    /// Stored bytes could not be decoded: the envelope is truncated, carries
    /// an unknown schema version, or is tagged with an unexpected kind.
    Deserialization,
    /// The underlying engine rejected a read or write, for instance because
    /// a named partition does not exist.
    Store,
}

impl CryptoStoreError {
    /// A short human-readable description of the error.
    pub fn message(&self) -> (r: &'static str)
        ensures
            r@.len() > 0,
    {
        proof {
            reveal_strlit("cannot open the underlying store");
            reveal_strlit("write attempted in a read-only transaction");
            reveal_strlit("cannot encode a record");
            reveal_strlit("cannot decode a stored record");
            reveal_strlit("the underlying engine rejected the operation");
        }
        match self {
            CryptoStoreError::Open => "cannot open the underlying store",
            CryptoStoreError::Access => "write attempted in a read-only transaction",
            CryptoStoreError::Serialization => "cannot encode a record",
            CryptoStoreError::Deserialization => "cannot decode a stored record",
            CryptoStoreError::Store => "the underlying engine rejected the operation",
        }
    }
}

} // verus!
