//! Content hashing for identity derivation.
//!
//! Identities are derived from an object's bytes with the 64-bit
//! FNV-1a hash, an explicit, documented choice of a well-distributed,
//! non-cryptographic hash.  The collision policy is the documented
//! one for content addressing: two payloads that hash alike share an
//! identity, and a later `put` silently overwrites the earlier object.
//! The identity's textual form is the decimal rendering of the hash.

use vstd::prelude::*;

verus! {

/// FNV-1a 64-bit offset basis.
pub const FNV_OFFSET: u64 = 0xcbf29ce484222325;

/// FNV-1a 64-bit prime.
pub const FNV_PRIME: u64 = 0x100000001b3;

/// The FNV-1a 64-bit hash of a byte string.
pub open spec fn fnv1a_64(s: Seq<u8>) -> u64
    decreases s.len(),
{
    if s.len() == 0 {
        FNV_OFFSET
    } else {
        vstd::wrapping::u64_specs::wrapping_mul(
            fnv1a_64(s.drop_last()) ^ (s.last() as u64),
            FNV_PRIME,
        )
    }
}

/// The decimal rendering of a 64-bit number, as ASCII digit bytes
/// without leading zeros.
pub open spec fn dec_of(n: u64) -> Seq<u8>
    decreases n,
{
    if n < 10 {
        seq![(48 + n) as u8]
    } else {
        dec_of(n / 10).push((48 + n % 10) as u8)
    }
}

/// The identity text derived from an object's content: the decimal
/// rendering of the content's FNV-1a hash.  A function of the bytes
/// alone, so identical content always yields the identical identity.
pub open spec fn ident_of(s: Seq<u8>) -> Seq<u8> {
    dec_of(fnv1a_64(s))
}

/// A decimal rendering is nonempty and consists of ASCII digits.
pub proof fn lemma_dec_of_digits(n: u64)
    ensures
        dec_of(n).len() >= 1,
        forall|i: int| 0 <= i < dec_of(n).len() ==> 48 <= #[trigger] dec_of(n)[i] <= 57,
    decreases n,
{
    if n >= 10 {
        assert(n / 10 < n) by (nonlinear_arith)
            requires
                n >= 10,
        ;
        lemma_dec_of_digits(n / 10);
    }
}

/// Computes the FNV-1a 64-bit hash of the given bytes.
pub fn hash_bytes(data: &Vec<u8>) -> (r: u64)
    ensures
        r == fnv1a_64(data@),
{
    let mut h: u64 = FNV_OFFSET;
    let mut i: usize = 0;
    proof {
        assert(data@.subrange(0, 0) =~= Seq::<u8>::empty());
    }
    while i < data.len()
        invariant
            i <= data.len(),
            h == fnv1a_64(data@.subrange(0, i as int)),
        decreases data.len() - i,
    {
        h = (h ^ (data[i] as u64)).wrapping_mul(FNV_PRIME);
        proof {
            let pre = data@.subrange(0, i as int);
            let post = data@.subrange(0, i + 1);
            assert(post.drop_last() =~= pre);
            assert(post.last() == data@[i as int]);
        }
        i = i + 1;
    }
    proof {
        assert(data@.subrange(0, data@.len() as int) =~= data@);
    }
    h
}

/// Appends the decimal rendering of `n` to `out`.
pub fn push_decimal(n: u64, out: &mut Vec<u8>)
    ensures
        final(out)@ == old(out)@ + dec_of(n),
    decreases n,
{
    if n < 10 {
        out.push(48 + n as u8);
        proof {
            assert(out@ =~= old(out)@ + dec_of(n));
        }
    } else {
        proof {
            assert(n / 10 < n) by (nonlinear_arith)
                requires
                    n >= 10,
            ;
        }
        push_decimal(n / 10, out);
        out.push(48 + (n % 10) as u8);
        proof {
            assert(out@ =~= old(out)@ + dec_of(n));
        }
    }
}

} // verus!
