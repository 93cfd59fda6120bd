//! The store's laws, stated over the models its contracts use.
//!
//! The operations' own `ensures` pin each state change; the proof
//! functions here state the properties that follow when operations
//! are composed, so a reader sees them written down rather than
//! having to derive them.

use vstd::prelude::*;

use crate::backends::memory::{label_fwd, MemoryBackend};
use crate::hash::ident_of;
use crate::label::DefaultLabel;

verus! {

/// Content addressing makes `put` idempotent on identical content:
/// storing the same bytes twice leaves the object store exactly as
/// storing them once, whatever labels either call supplied — the
/// second `put` overwrites in place under the same identity.
pub proof fn law_put_idempotent(m: Map<Seq<u8>, Seq<u8>>, o: Seq<u8>)
    ensures
        m.insert(ident_of(o), o).insert(ident_of(o), o) == m.insert(ident_of(o), o),
{
    assert(m.insert(ident_of(o), o).insert(ident_of(o), o) =~= m.insert(ident_of(o), o));
}

/// `get` after `put` returns the stored object unchanged,
/// byte for byte: after `put` maps the content's identity to the
/// payload, looking that identity up yields exactly the payload.
pub proof fn law_get_after_put(m: Map<Seq<u8>, Seq<u8>>, o: Seq<u8>)
    ensures
        m.insert(ident_of(o), o).contains_key(ident_of(o)),
        m.insert(ident_of(o), o)[ident_of(o)] == o,
{
}

/// After a successful `delete`, the identity is gone: `get` finds
/// nothing, and a second `delete` of the same identity fails with
/// `ObjectNotFound`, since both go by the same absent key.
pub proof fn law_delete_clears(m: Map<Seq<u8>, Seq<u8>>, x: Seq<u8>)
    ensures
        !m.remove(x).contains_key(x),
{
}

/// A search for two labels returns the union of the identities
/// carrying either label, not their intersection.
pub proof fn law_find_union(b: &MemoryBackend, a: DefaultLabel, c: DefaultLabel, x: Seq<u8>)
    ensures
        b.matches_query(seq![a, c], x) <==> b.fwd_has(label_fwd(a), x) || b.fwd_has(
            label_fwd(c),
            x,
        ),
{
    let m = seq![a, c];
    if b.matches_query(m, x) {
        let q = choose|q: int| 0 <= q < m.len() && b.fwd_has(label_fwd(#[trigger] m[q]), x);
        assert(q == 0 || q == 1);
    }
    if b.fwd_has(label_fwd(a), x) {
        assert(b.fwd_has(label_fwd(m[0]), x));
    }
    if b.fwd_has(label_fwd(c), x) {
        assert(b.fwd_has(label_fwd(m[1]), x));
    }
}

/// `delete` retracts the deleted identity from every bucket of both
/// index directions: given the relation `delete` ensures between the
/// states before and after, the identity is listed nowhere
/// afterwards, in the forward and reverse indexes alike.
pub proof fn law_delete_retracts(pre: &MemoryBackend, post: &MemoryBackend, target: Seq<u8>)
    requires
        forall|k: Seq<u8>, x: Seq<u8>| post.fwd_has(k, x) <==> pre.fwd_has(k, x) && x != target,
        forall|k: Seq<u8>, x: Seq<u8>| post.rev_has(k, x) <==> pre.rev_has(k, x) && x != target,
    ensures
        forall|k: Seq<u8>| !post.fwd_has(k, target),
        forall|k: Seq<u8>| !post.rev_has(k, target),
{
}

/// After a `delete`, no query lists the deleted identity: a search
/// for any label set excludes it.
pub proof fn law_find_after_delete(
    pre: &MemoryBackend,
    post: &MemoryBackend,
    target: Seq<u8>,
    meta: Seq<DefaultLabel>,
)
    requires
        forall|k: Seq<u8>, x: Seq<u8>| post.fwd_has(k, x) <==> pre.fwd_has(k, x) && x != target,
    ensures
        !post.matches_query(meta, target),
{
    if post.matches_query(meta, target) {
        let q = choose|q: int|
            0 <= q < meta.len() && post.fwd_has(label_fwd(#[trigger] meta[q]), target);
    }
}

} // verus!



