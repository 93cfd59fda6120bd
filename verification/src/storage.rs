//! The storage backend contract.
//!
//! Any backend must provide open/sync and ident-keyed CRUD; a
//! backend may additionally provide label-based search.  The contract
//! carries each backend's internal consistency invariant: `open`
//! establishes it and every operation preserves it.  The full
//! behavioural contracts live on the concrete backend's own methods.
//!
//! Mutating operations take the backend exclusively (`&mut`), so a
//! caller cannot re-enter a mutating operation while another is in
//! progress on the same instance.

use vstd::prelude::*;

use crate::error::Error;

verus! {

/// The operations a storage backend must implement.
pub trait StorageBackend: Sized {
    type Item;

    type MetadataItem;

    type Ident;

    /// The backend's internal consistency invariant.
    spec fn inv(&self) -> bool;

    /// Constructs or attaches to a backend instance at the given
    /// location.
    fn open(location: &str) -> (r: Result<Self, Error>)
        ensures
            r matches Ok(b) ==> b.inv(),
    ;

    /// Durability barrier: blocks until prior mutations are durable.
    fn sync(&self) -> (r: Result<(), Error>)
        requires
            self.inv(),
    ;

    /// Derives the stable identity of an object from its content.
    fn new_ident(&self, item: &Self::Item) -> (r: Result<Self::Ident, Error>)
        requires
            self.inv(),
    ;

    /// Retrieves the object stored under an identity; `None` means
    /// "not present" and is not an error.
    fn get(&self, ident: Self::Ident) -> (r: Result<Option<Self::Item>, Error>)
        requires
            self.inv(),
    ;

    /// Stores an object under its content-derived identity and
    /// records its labels in the indexes.
    fn put(&mut self, item: Self::Item, metadata: Vec<Self::MetadataItem>) -> (r: Result<
        Self::Ident,
        Error,
    >)
        requires
            old(self).inv(),
        ensures
            final(self).inv(),
    ;

    /// Removes the object stored under an identity and retracts its
    /// index entries.
    fn delete(&mut self, ident: Self::Ident) -> (r: Result<Option<Self::Item>, Error>)
        requires
            old(self).inv(),
        ensures
            final(self).inv(),
    ;
}

/// The optional search extension: lookup by label.
pub trait StorageBackendSearch: StorageBackend {
    /// The identities carrying any of the queried labels.
    fn find_by_metadata(&self, metadata: Vec<Self::MetadataItem>) -> (r: Result<
        Option<Vec<Self::Ident>>,
        Error,
    >)
        requires
            self.inv(),
    ;
}

} // verus!
