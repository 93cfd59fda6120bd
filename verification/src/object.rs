//! The object model: an opaque immutable byte payload.
//!
//! The store interprets no structure inside an object; it only hashes
//! and moves the bytes.  Objects cross the backend contract as
//! `bytes::Bytes` buffers and convert losslessly to and from the
//! backend's native `sled::IVec` value representation.

use vstd::prelude::*;

use crate::error::Error;
use crate::order::copy_bytes;
use crate::wire::{bytes_content, bytes_to_vec, ivec_content, ivec_from_vec, ivec_to_vec, NativeValue};

verus! {

/// The contract an object representation must satisfy: construction
/// from a byte buffer and lossless conversion to and from the
/// backend's native value representation.
pub trait Object: Sized + Clone {
    fn new(i: bytes::Bytes) -> Result<Self, Error>;

    fn to_ivec(&self) -> Result<NativeValue, Error>;

    fn from_ivec(i: NativeValue) -> Result<Self, Error>;
}

/// The default object: an immutable byte payload.
pub struct DefaultObject(pub(crate) Vec<u8>);

impl View for DefaultObject {
    type V = Seq<u8>;

    closed spec fn view(&self) -> Seq<u8> {
        self.0@
    }
}

impl Clone for DefaultObject {
    /// The clone holds the same bytes.
    fn clone(&self) -> (r: Self)
        ensures
            r@ == self@,
    {
        DefaultObject(copy_bytes(&self.0))
    }
}

impl DefaultObject {
    /// Wraps the bytes of the given buffer; never fails.
    pub fn new(i: bytes::Bytes) -> (r: Result<DefaultObject, Error>)
        ensures
            r matches Ok(o) && o@ == bytes_content(i),
    {
        Ok(DefaultObject(bytes_to_vec(&i)))
    }

    /// The payload bytes.
    pub fn content(&self) -> (r: &Vec<u8>)
        ensures
            r@ == self@,
    {
        &self.0
    }

    /// Converts the payload to the backend's native value
    /// representation; never fails.
    pub fn to_ivec(&self) -> (r: Result<NativeValue, Error>)
        ensures
            r matches Ok(v) && ivec_content(v) == self@,
    {
        Ok(ivec_from_vec(copy_bytes(&self.0)))
    }

    /// Reads a payload back from the backend's native value
    /// representation; never fails.
    pub fn from_ivec(i: NativeValue) -> (r: Result<DefaultObject, Error>)
        ensures
            r matches Ok(o) && o@ == ivec_content(i),
    {
        Ok(DefaultObject(ivec_to_vec(&i)))
    }
}

impl Object for DefaultObject {
    fn new(i: bytes::Bytes) -> Result<Self, Error> {
        DefaultObject::new(i)
    }

    fn to_ivec(&self) -> Result<NativeValue, Error> {
        DefaultObject::to_ivec(self)
    }

    fn from_ivec(i: NativeValue) -> Result<Self, Error> {
        DefaultObject::from_ivec(i)
    }
}

} // verus!
