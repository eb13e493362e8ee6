//! A verified persistence engine for end-to-end-encryption session state.
//!
//! The engine stores the long-lived cryptographic material of a secure
//! messaging client: the local account, pairwise ratchet sessions, inbound
//! group sessions, remote device records, cross-signing identities, and the
//! set of tracked users whose device lists must be kept fresh.
//!
//! Cryptographic objects arrive as opaque pickled blobs; the store never
//! looks inside them.  Every blob is wrapped in a versioned, kind-tagged
//! envelope before it is written, and the envelope is checked again on every
//! read.  All multi-record updates go through a transaction on the
//! partitioned key-value adapter, so a failing write leaves the store
//! untouched.

pub mod account;
pub mod codec;
pub mod devices;
pub mod errors;
pub mod group_sessions;
pub mod identities;
pub mod kv;
pub mod laws;
pub mod sessions;
pub mod store;
pub mod tracked_users;
pub mod types;
