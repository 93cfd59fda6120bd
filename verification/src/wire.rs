//! The wire-encoding edge of the store.
//!
//! Objects, labels and identities cross the backend contract as
//! `bytes::Bytes` buffers and `sled::IVec` values, and identity text
//! is checked as UTF-8.  Those outside values are opaque here; each is
//! named by a spec function for the bytes it holds, and the few calls
//! the store makes are wrapped in trusted functions whose contracts
//! state what the outside crates document.

use vstd::prelude::*;

use vstd::string::StringSliceAdditionalSpecFns;

verus! {

#[verifier::external_type_specification]
#[verifier::external_body]
pub struct ExBytes(bytes::Bytes);

#[verifier::external_type_specification]
#[verifier::external_body]
pub struct ExUtf8Error(core::str::Utf8Error);

/// The backend's native value representation: a `sled::IVec`, held
/// opaquely because Verus refuses the type itself in signatures.
#[verifier::external_body]
pub struct NativeValue {
    inner: sled::IVec,
}

/// The bytes a `bytes::Bytes` buffer holds.
pub uninterp spec fn bytes_content(b: bytes::Bytes) -> Seq<u8>;

/// The bytes a native value holds.
pub uninterp spec fn ivec_content(v: NativeValue) -> Seq<u8>;

/// Relies on `impl From<Vec<u8>> for bytes::Bytes`: the buffer holds
/// exactly the vector's bytes.
#[verifier::external_body]
pub fn bytes_from_vec(v: Vec<u8>) -> (b: bytes::Bytes)
    ensures
        bytes_content(b) == v@,
{
    bytes::Bytes::from(v)
}

/// Relies on `slice::to_vec`, reached through `bytes::Bytes`'s deref
/// to `[u8]`: the vector holds exactly the buffer's bytes.
#[verifier::external_body]
pub fn bytes_to_vec(b: &bytes::Bytes) -> (v: Vec<u8>)
    ensures
        v@ == bytes_content(*b),
{
    b.to_vec()
}

/// Relies on `impl From<Vec<u8>> for sled::IVec`: the value holds
/// exactly the vector's bytes.
#[verifier::external_body]
pub fn ivec_from_vec(v: Vec<u8>) -> (r: NativeValue)
    ensures
        ivec_content(r) == v@,
{
    NativeValue { inner: sled::IVec::from(v) }
}

/// Relies on `slice::to_vec`, reached through `sled::IVec`'s deref to
/// `[u8]`: the vector holds exactly the value's bytes.
#[verifier::external_body]
pub fn ivec_to_vec(v: &NativeValue) -> (r: Vec<u8>)
    ensures
        r@ == ivec_content(*v),
{
    v.inner.to_vec()
}

/// Relies on `core::str::from_utf8`: it succeeds exactly on valid
/// UTF-8 input and returns a view of the same bytes.
#[verifier::external_body]
pub fn str_from_utf8(v: &[u8]) -> (r: Result<&str, core::str::Utf8Error>)
    ensures
        r is Ok <==> vstd::utf8::valid_utf8(v@),
        r matches Ok(s) ==> s.spec_bytes() == v@,
{
    core::str::from_utf8(v)
}

} // verus!
