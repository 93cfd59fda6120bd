//! The label model and codec.
//!
//! Labels are the basic metadata describing an object: human-readable
//! `key=value` pairs.  A label splits from text at the *first* `=`,
//! so the key never contains `=` while the value may contain it
//! freely.  A label has two canonical byte texts: the forward form
//! `key=value`, which keys the forward index, and the reverse form
//! `value=key`, which keys the reverse index.  One derivation
//! function per direction is shared by insertion, deletion and
//! search, so the two indexes can never disagree on their keys.

use vstd::prelude::*;

use vstd::string::StringSliceAdditionalSpecFns;
use vstd::utf8::{encode_utf8, valid_utf8};

use crate::error::Error;
use crate::order::push_slice;
use crate::wire::{bytes_content, bytes_from_vec, bytes_to_vec, ivec_from_vec, ivec_content, str_from_utf8, NativeValue};

verus! {

/// The `=` separator byte.
pub const SEP: u8 = 61;

/// The index of the first `=` in a byte text, or its length when no
/// `=` occurs.
pub open spec fn first_sep(b: Seq<u8>) -> int
    decreases b.len(),
{
    if b.len() == 0 {
        0
    } else if b[0] == SEP {
        0
    } else {
        1 + first_sep(b.drop_first())
    }
}

/// Whether a byte text contains the `=` separator at all.
pub open spec fn has_sep(b: Seq<u8>) -> bool {
    first_sep(b) < b.len()
}

/// The portion before the first `=`.
pub open spec fn key_bytes(b: Seq<u8>) -> Seq<u8> {
    b.subrange(0, first_sep(b))
}

/// The portion after the first `=`, further `=` included.
pub open spec fn value_bytes(b: Seq<u8>) -> Seq<u8>
    recommends
        has_sep(b),
{
    b.subrange(first_sep(b) + 1, b.len() as int)
}

/// `first_sep` is the least index holding `=`, or the length when
/// none does.
pub proof fn lemma_first_sep(b: Seq<u8>)
    ensures
        0 <= first_sep(b) <= b.len(),
        has_sep(b) ==> b[first_sep(b)] == SEP,
        forall|i: int| 0 <= i < first_sep(b) ==> b[i] != SEP,
        forall|i: int| 0 <= i < b.len() && b[i] == SEP ==> first_sep(b) <= i,
    decreases b.len(),
{
    if b.len() > 0 && b[0] != SEP {
        let t = b.drop_first();
        lemma_first_sep(t);
        assert forall|i: int| 0 <= i < first_sep(b) implies b[i] != SEP by {
            if i > 0 {
                assert(b[i] == t[i - 1]);
            }
        }
        assert forall|i: int| 0 <= i < b.len() && b[i] == SEP implies first_sep(b) <= i by {
            assert(b[i] == t[i - 1]);
        }
        if has_sep(b) {
            assert(b[first_sep(b)] == t[first_sep(b) - 1]);
        }
    }
}

/// The canonical forward byte text of a `(key, value)` pair:
/// `key=value`.
pub open spec fn forward_bytes(key: Seq<char>, value: Seq<char>) -> Seq<u8> {
    encode_utf8(key) + seq![SEP] + encode_utf8(value)
}

/// The canonical reverse byte text of a `(key, value)` pair:
/// `value=key`.
pub open spec fn reverse_bytes(key: Seq<char>, value: Seq<char>) -> Seq<u8> {
    forward_bytes(value, key)
}

/// The contract a label representation must satisfy: construction,
/// parsing from text and from byte buffers in both directions, and
/// serialization to byte buffers and to the backend's native value
/// representation in both directions.  The behavioural contracts
/// live on the default representation's own methods below.
pub trait Label: Sized {
    fn new(lhs: String, rhs: String) -> Self;

    fn parse_str(s: &str) -> Result<Self, Error>;

    fn parse_string(s: String) -> Result<Self, Error>;

    fn from_bytes(bytes: bytes::Bytes) -> Result<Self, Error>;

    fn from_bytes_rtl(bytes: bytes::Bytes) -> Result<Self, Error>;

    fn to_bytes_ltr(&self) -> Result<bytes::Bytes, Error>;

    fn to_ivec_ltr(&self) -> Result<NativeValue, Error>;

    fn to_bytes_rtl(&self) -> Result<bytes::Bytes, Error>;

    fn to_ivec_rtl(&self) -> Result<NativeValue, Error>;
}

/// The default label: a `(key, value)` pair of text fields.
#[derive(Clone, Debug, Default)]
pub struct DefaultLabel(pub String, pub String);

impl DefaultLabel {
    /// Pairs the two given texts as key and value.
    pub fn new(lhs: String, rhs: String) -> (r: Self)
        ensures
            r.0@ == lhs@,
            r.1@ == rhs@,
    {
        DefaultLabel(lhs, rhs)
    }

    /// The forward byte text `key=value` of this label.
    pub fn forward_key(&self) -> (r: Vec<u8>)
        ensures
            r@ == forward_bytes(self.0@, self.1@),
    {
        let mut out: Vec<u8> = Vec::new();
        push_slice(&mut out, self.0.as_str().as_bytes());
        out.push(SEP);
        push_slice(&mut out, self.1.as_str().as_bytes());
        proof {
            assert(out@ =~= forward_bytes(self.0@, self.1@));
        }
        out
    }

    /// The reverse byte text `value=key` of this label.
    pub fn reverse_key(&self) -> (r: Vec<u8>)
        ensures
            r@ == reverse_bytes(self.0@, self.1@),
    {
        let mut out: Vec<u8> = Vec::new();
        push_slice(&mut out, self.1.as_str().as_bytes());
        out.push(SEP);
        push_slice(&mut out, self.0.as_str().as_bytes());
        proof {
            assert(out@ =~= reverse_bytes(self.0@, self.1@));
        }
        out
    }

    /// Splits the given text at its first `=`: the portion before
    /// becomes the key and everything after becomes the value.  Fails
    /// with `InvalidLabelString` when no `=` is present.
    pub fn parse_str(s: &str) -> (r: Result<DefaultLabel, Error>)
        ensures
            r is Ok <==> has_sep(encode_utf8(s@)),
            r matches Ok(l) ==> encode_utf8(l.0@) == key_bytes(encode_utf8(s@)) && encode_utf8(
                l.1@,
            ) == value_bytes(encode_utf8(s@)),
            r matches Err(e) ==> e == Error::InvalidLabelString,
    {
        let bytes = s.as_bytes();
        let ghost sb = encode_utf8(s@);
        proof {
            lemma_first_sep(sb);
        }
        let n = bytes.len();
        let mut i: usize = 0;
        while i < n && bytes[i] != SEP
            invariant
                0 <= i <= n,
                n == sb.len(),
                bytes@ == sb,
                forall|j: int| 0 <= j < i ==> sb[j] != SEP,
            decreases n - i,
        {
            i = i + 1;
        }
        if i == n {
            return Err(Error::InvalidLabelString);
        }
        proof {
            assert(first_sep(sb) == i);
            vstd::utf8::encode_utf8_valid_utf8(s@);
            vstd::utf8::is_char_boundary_iff_not_is_continuation_byte(sb, i as int);
        }
        let (k, rest) = s.split_at(i);
        proof {
            vstd::utf8::valid_utf8_split(sb, i as int);
            let rb = sb.subrange(i as int, sb.len() as int);
            assert(rest.spec_bytes() =~= rb);
            assert(rb[0] == SEP);
            assert(vstd::utf8::is_leading_byte_width_1(rb[0]));
            assert(vstd::utf8::length_of_first_scalar(rb) == 1);
            assert(vstd::utf8::is_char_boundary(rb, 1)) by {
                reveal_with_fuel(vstd::utf8::is_char_boundary, 2);
            }
        }
        let (_sep, v) = rest.split_at(1);
        proof {
            assert(k.spec_bytes() =~= key_bytes(sb));
            assert(v.spec_bytes() =~= value_bytes(sb));
        }
        Ok(DefaultLabel(k.to_owned(), v.to_owned()))
    }

    /// `parse_str`, taking the text by value.
    pub fn parse_string(s: String) -> (r: Result<DefaultLabel, Error>)
        ensures
            r is Ok <==> has_sep(encode_utf8(s@)),
            r matches Ok(l) ==> encode_utf8(l.0@) == key_bytes(encode_utf8(s@)) && encode_utf8(
                l.1@,
            ) == value_bytes(encode_utf8(s@)),
            r matches Err(e) ==> e == Error::InvalidLabelString,
    {
        Self::parse_str(s.as_str())
    }

    /// Decodes the buffer as UTF-8 text and parses it forward: the
    /// portion before the first `=` is the key.
    pub fn from_bytes(bytes: bytes::Bytes) -> (r: Result<DefaultLabel, Error>)
        ensures
            r is Ok <==> valid_utf8(bytes_content(bytes)) && has_sep(bytes_content(bytes)),
            r matches Ok(l) ==> encode_utf8(l.0@) == key_bytes(bytes_content(bytes)) && encode_utf8(
                l.1@,
            ) == value_bytes(bytes_content(bytes)),
            r matches Err(e) ==> e == (if valid_utf8(bytes_content(bytes)) {
                Error::InvalidLabelString
            } else {
                Error::Utf8
            }),
    {
        let v = bytes_to_vec(&bytes);
        match str_from_utf8(v.as_slice()) {
            Ok(s) => Self::parse_str(s),
            Err(_) => Err(Error::Utf8),
        }
    }

    /// Decodes the buffer as UTF-8 text and parses it with the roles
    /// swapped: the portion before the first `=` is the value.
    pub fn from_bytes_rtl(bytes: bytes::Bytes) -> (r: Result<DefaultLabel, Error>)
        ensures
            r is Ok <==> valid_utf8(bytes_content(bytes)) && has_sep(bytes_content(bytes)),
            r matches Ok(l) ==> encode_utf8(l.1@) == key_bytes(bytes_content(bytes)) && encode_utf8(
                l.0@,
            ) == value_bytes(bytes_content(bytes)),
            r matches Err(e) ==> e == (if valid_utf8(bytes_content(bytes)) {
                Error::InvalidLabelString
            } else {
                Error::Utf8
            }),
    {
        match Self::from_bytes(bytes) {
            Ok(l) => {
                let DefaultLabel(a, b) = l;
                Ok(DefaultLabel(b, a))
            },
            Err(e) => Err(e),
        }
    }

    /// Serializes the forward text `key=value` into a byte buffer;
    /// never fails.
    pub fn to_bytes_ltr(&self) -> (r: Result<bytes::Bytes, Error>)
        ensures
            r matches Ok(b) && bytes_content(b) == forward_bytes(self.0@, self.1@),
    {
        Ok(bytes_from_vec(self.forward_key()))
    }

    /// Serializes the reverse text `value=key` into a byte buffer;
    /// never fails.
    pub fn to_bytes_rtl(&self) -> (r: Result<bytes::Bytes, Error>)
        ensures
            r matches Ok(b) && bytes_content(b) == reverse_bytes(self.0@, self.1@),
    {
        Ok(bytes_from_vec(self.reverse_key()))
    }

    /// The forward text as the backend's native value representation;
    /// never fails.
    pub fn to_ivec_ltr(&self) -> (r: Result<NativeValue, Error>)
        ensures
            r matches Ok(v) && ivec_content(v) == forward_bytes(self.0@, self.1@),
    {
        Ok(ivec_from_vec(self.forward_key()))
    }

    /// The reverse text as the backend's native value representation;
    /// never fails.
    pub fn to_ivec_rtl(&self) -> (r: Result<NativeValue, Error>)
        ensures
            r matches Ok(v) && ivec_content(v) == reverse_bytes(self.0@, self.1@),
    {
        Ok(ivec_from_vec(self.reverse_key()))
    }
}

impl Label for DefaultLabel {
    fn new(lhs: String, rhs: String) -> Self {
        DefaultLabel::new(lhs, rhs)
    }

    fn parse_str(s: &str) -> Result<Self, Error> {
        DefaultLabel::parse_str(s)
    }

    fn parse_string(s: String) -> Result<Self, Error> {
        DefaultLabel::parse_string(s)
    }

    fn from_bytes(bytes: bytes::Bytes) -> Result<Self, Error> {
        DefaultLabel::from_bytes(bytes)
    }

    fn from_bytes_rtl(bytes: bytes::Bytes) -> Result<Self, Error> {
        DefaultLabel::from_bytes_rtl(bytes)
    }

    fn to_bytes_ltr(&self) -> Result<bytes::Bytes, Error> {
        DefaultLabel::to_bytes_ltr(self)
    }

    fn to_ivec_ltr(&self) -> Result<NativeValue, Error> {
        DefaultLabel::to_ivec_ltr(self)
    }

    fn to_bytes_rtl(&self) -> Result<bytes::Bytes, Error> {
        DefaultLabel::to_bytes_rtl(self)
    }

    fn to_ivec_rtl(&self) -> Result<NativeValue, Error> {
        DefaultLabel::to_ivec_rtl(self)
    }
}

/// Parsing inverts forward serialization: any text containing `=`
/// parses into a key free of `=` and a value whose forward text
/// `key=value` is the parsed text itself, and whose reverse text is
/// the same two parts swapped around the first `=`.  The `key` and
/// `value` here are any texts whose encodings are what `parse_str`
/// ensures of its result.
pub proof fn lemma_parse_round_trip(b: Seq<u8>, key: Seq<char>, value: Seq<char>)
    requires
        has_sep(b),
        encode_utf8(key) == key_bytes(b),
        encode_utf8(value) == value_bytes(b),
    ensures
        forward_bytes(key, value) == b,
        reverse_bytes(key, value) == value_bytes(b) + seq![SEP] + key_bytes(b),
        !has_sep(encode_utf8(key)),
{
    lemma_first_sep(b);
    assert(key_bytes(b) + seq![SEP] + value_bytes(b) =~= b);
    lemma_first_sep(key_bytes(b));
}

} // verus!
