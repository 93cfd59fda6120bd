//! A pluggable content-addressable object store.
//!
//! Callers submit opaque byte payloads ("objects") together with
//! human-readable `key=value` tags ("labels").  The store derives a
//! deterministic identity for each object from its content, keeps the
//! object under that identity, and maintains a forward (`key=value`)
//! and a reverse (`value=key`) label index so objects can later be
//! retrieved by identity or discovered by label.

pub mod alist;
pub mod backends;
pub mod error;
pub mod hash;
pub mod label;
pub mod laws;
pub mod object;
pub mod order;
pub mod storage;
pub mod wire;
