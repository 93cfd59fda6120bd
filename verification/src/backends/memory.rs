//! The reference in-process backend.
//!
//! Objects, labels and identities live in four in-memory associative
//! structures: the object store, the forward (`key=value`) and
//! reverse (`value=key`) label indexes, and the per-object label
//! record used to clean the indexes on delete.  Index buckets are
//! kept sorted descending by identity text and free of duplicates.
//! Each index direction is keyed by one canonical derivation
//! function, shared by insertion, deletion and search.
//!
//! When `put` stores content that already exists with a different
//! label set, the indexes are reconciled: the entries of the
//! previously recorded label set are retracted before the new set is
//! inserted, so the record and the two indexes always agree.

use vstd::prelude::*;

use vstd::string::StringSliceAdditionalSpecFns;
use vstd::utf8::{encode_utf8, valid_utf8};

use crate::alist::AList;
use crate::error::Error;
use crate::hash::{hash_bytes, ident_of, push_decimal, lemma_dec_of_digits};
use crate::label::{forward_bytes, reverse_bytes, DefaultLabel};
use crate::object::DefaultObject;
use crate::order::{bytes_lt, copy_bytes, lemma_lex_transitive, lemma_lex_trichotomy, lex_lt};
use crate::wire::{bytes_content, bytes_from_vec, bytes_to_vec, str_from_utf8};

verus! {

/// The item type this backend stores.
pub type Item = DefaultObject;

/// The label type this backend indexes.
pub type MetadataItem = DefaultLabel;

/// A content-derived identity: the decimal rendering of the content's
/// hash, kept as the UTF-8 bytes of that text.
pub struct Ident {
    text: Vec<u8>,
}

impl View for Ident {
    type V = Seq<u8>;

    closed spec fn view(&self) -> Seq<u8> {
        self.text@
    }
}

impl Ident {
    /// The identity's bytes decode as text.
    pub open spec fn wf(&self) -> bool {
        valid_utf8(self@)
    }

    /// Reads an identity back from its raw byte form; fails with
    /// `Utf8` when the bytes are not text.
    pub fn try_from(value: bytes::Bytes) -> (r: Result<Ident, Error>)
        ensures
            r is Ok <==> valid_utf8(bytes_content(value)),
            r matches Ok(id) ==> id@ == bytes_content(value) && id.wf(),
            r matches Err(e) ==> e == Error::Utf8,
    {
        let text = bytes_to_vec(&value);
        match str_from_utf8(text.as_slice()) {
            Ok(_) => Ok(Ident { text }),
            Err(_) => Err(Error::Utf8),
        }
    }

    /// The identity's raw byte form, for use as a storage key; never
    /// fails.
    pub fn try_into(self) -> (r: Result<bytes::Bytes, Error>)
        ensures
            r matches Ok(b) && bytes_content(b) == self@,
    {
        Ok(bytes_from_vec(self.text))
    }

    /// The identity's text.
    pub fn to_text(&self) -> (r: String)
        requires
            self.wf(),
        ensures
            encode_utf8(r@) == self@,
    {
        match str_from_utf8(self.text.as_slice()) {
            Ok(s) => s.to_owned(),
            Err(_) => vstd::pervasive::unreached(),
        }
    }

    /// A copy of the identity's bytes, for use as a lookup key.
    pub(crate) fn key_bytes(&self) -> (r: Vec<u8>)
        ensures
            r@ == self@,
    {
        copy_bytes(&self.text)
    }

    /// Whether this identity strictly precedes the other in the
    /// lexicographic order of their texts.
    pub fn lt(&self, other: &Ident) -> (r: bool)
        ensures
            r == lex_lt(self@, other@),
    {
        bytes_lt(&self.text, &other.text)
    }
}

impl Clone for Ident {
    /// The clone names the same identity.
    fn clone(&self) -> (r: Self)
        ensures
            r@ == self@,
    {
        Ident { text: copy_bytes(&self.text) }
    }
}

/// Whether some identity in `s` has the byte text `x`.
pub open spec fn has_id(s: Seq<Ident>, x: Seq<u8>) -> bool {
    exists|i: int| 0 <= i < s.len() && s[i]@ == x
}

/// A bucket sorted strictly descending by identity text; strictness
/// keeps it free of duplicates.
pub open spec fn sorted_desc(s: Seq<Ident>) -> bool {
    forall|i: int, j: int| 0 <= i < j < s.len() ==> lex_lt(s[j]@, s[i]@)
}

/// A result list sorted strictly ascending by identity text.
pub open spec fn sorted_asc(s: Seq<Ident>) -> bool {
    forall|i: int, j: int| 0 <= i < j < s.len() ==> lex_lt(s[i]@, s[j]@)
}

/// All identities in `s` are well formed.
pub open spec fn all_wf(s: Seq<Ident>) -> bool {
    forall|i: int| 0 <= i < s.len() ==> (#[trigger] s[i]).wf()
}

/// Pushing an identity extends the texts present by exactly its text.
proof fn lemma_has_id_push(s: Seq<Ident>, e: Ident, x: Seq<u8>)
    ensures
        has_id(s.push(e), x) <==> has_id(s, x) || e@ == x,
{
    if has_id(s.push(e), x) {
        let i = choose|i: int| 0 <= i < s.push(e).len() && s.push(e)[i]@ == x;
        if i < s.len() {
            assert(s[i]@ == x);
        } else {
            assert(e@ == x);
        }
    }
    if has_id(s, x) {
        let i = choose|i: int| 0 <= i < s.len() && s[i]@ == x;
        assert(s.push(e)[i]@ == x);
    }
    if e@ == x {
        assert(s.push(e)[s.len() as int]@ == x);
    }
}

/// Returns `b` with `id` inserted at its sorted position, unchanged
/// when `id` is already present.
fn insert_sorted_desc(b: &Vec<Ident>, id: &Ident) -> (r: Vec<Ident>)
    requires
        sorted_desc(b@),
        all_wf(b@),
        id.wf(),
    ensures
        sorted_desc(r@),
        all_wf(r@),
        forall|x: Seq<u8>| has_id(r@, x) <==> has_id(b@, x) || x == id@,
{
    let mut out: Vec<Ident> = Vec::new();
    let mut j: usize = 0;
    while j < b.len() && id.lt(&b[j])
        invariant
            j <= b.len(),
            out@.len() == j,
            forall|p: int| 0 <= p < j ==> #[trigger] out@[p]@ == b@[p]@ && out@[p].wf(),
            all_wf(b@),
            forall|p: int| 0 <= p < j ==> lex_lt(id@, b@[p]@),
        decreases b.len() - j,
    {
        out.push(b[j].clone());
        j = j + 1;
    }
    let ghost mid = j as int;
    let ghost inserted = j == b.len() || lex_lt(b@[mid]@, id@);
    proof {
        // the copied prefix is sorted and holds exactly the texts of
        // b's first `mid` entries
        assert forall|x: Seq<u8>| has_id(out@, x) <==> has_id(b@.subrange(0, mid), x) by {
            if has_id(out@, x) {
                let p = choose|p: int| 0 <= p < out@.len() && out@[p]@ == x;
                assert(b@.subrange(0, mid)[p]@ == x);
            }
            if has_id(b@.subrange(0, mid), x) {
                let p = choose|p: int|
                    0 <= p < b@.subrange(0, mid).len() && b@.subrange(0, mid)[p]@ == x;
                assert(out@[p]@ == x);
            }
        }
    }
    let ghost half = out@;
    if j == b.len() || b[j].lt(id) {
        // id is absent: everything before is greater, everything from
        // here on is smaller.
        out.push(id.clone());
        proof {
            if mid < b@.len() {
                assert forall|p: int| mid <= p < b@.len() implies lex_lt(b@[p]@, id@) by {
                    if p > mid {
                        lemma_lex_transitive(b@[p]@, b@[mid]@, id@);
                    }
                }
            }
            assert forall|x: Seq<u8>|
                has_id(out@, x) <==> (has_id(b@.subrange(0, j as int), x) || (inserted && x
                    == id@)) by {
                lemma_has_id_push(half, out@.last(), x);
            }
        }
    } else {
        proof {
            lemma_lex_trichotomy(id@, b@[mid]@);
            assert(b@[mid]@ == id@);
        }
    }
    while j < b.len()
        invariant
            mid <= j <= b.len(),
            sorted_desc(b@),
            all_wf(b@),
            id.wf(),
            sorted_desc(out@),
            all_wf(out@),
            !inserted ==> mid < b@.len() && b@[mid]@ == id@,
            forall|x: Seq<u8>| has_id(out@, x) <==> (has_id(b@.subrange(0, j as int), x) || (
            inserted && x == id@)),
            forall|p: int, q: int|
                #![trigger out@[p], b@[q]]
                0 <= p < out@.len() && j <= q < b@.len() ==> lex_lt(b@[q]@, out@[p]@),
        decreases b.len() - j,
    {
        let ghost pre = out@;
        out.push(b[j].clone());
        proof {
            assert(b@.subrange(0, j + 1) =~= b@.subrange(0, j as int).push(b@[j as int]));
            assert forall|x: Seq<u8>|
                has_id(out@, x) <==> (has_id(b@.subrange(0, j + 1), x) || (inserted && x
                    == id@)) by {
                lemma_has_id_push(pre, out@.last(), x);
                lemma_has_id_push(b@.subrange(0, j as int), b@[j as int], x);
            }
        }
        j = j + 1;
    }
    proof {
        assert(b@.subrange(0, b@.len() as int) =~= b@);
    }
    out
}

/// Returns `b` with every occurrence of the identity text `id`
/// removed.
fn remove_id(b: &Vec<Ident>, id: &Vec<u8>) -> (r: Vec<Ident>)
    requires
        sorted_desc(b@),
        all_wf(b@),
    ensures
        sorted_desc(r@),
        all_wf(r@),
        forall|x: Seq<u8>| has_id(r@, x) <==> has_id(b@, x) && x != id@,
{
    let mut out: Vec<Ident> = Vec::new();
    let mut j: usize = 0;
    while j < b.len()
        invariant
            j <= b.len(),
            sorted_desc(b@),
            all_wf(b@),
            sorted_desc(out@),
            all_wf(out@),
            forall|x: Seq<u8>| has_id(out@, x) <==> (has_id(b@.subrange(0, j as int), x) && x
                != id@),
            forall|p: int, q: int|
                #![trigger out@[p], b@[q]]
                0 <= p < out@.len() && j <= q < b@.len() ==> lex_lt(b@[q]@, out@[p]@),
        decreases b.len() - j,
    {
        let keep = !crate::order::bytes_eq(&b[j].text, id);
        let ghost pre = out@;
        if keep {
            out.push(b[j].clone());
        }
        proof {
            assert(b@.subrange(0, j + 1) =~= b@.subrange(0, j as int).push(b@[j as int]));
            assert forall|x: Seq<u8>|
                has_id(out@, x) <==> (has_id(b@.subrange(0, j + 1), x) && x != id@) by {
                if keep {
                    lemma_has_id_push(pre, out@.last(), x);
                }
                lemma_has_id_push(b@.subrange(0, j as int), b@[j as int], x);
            }
        }
        j = j + 1;
    }
    proof {
        assert(b@.subrange(0, b@.len() as int) =~= b@);
    }
    out
}

/// Returns `b` with `id` inserted at its ascending sorted position,
/// unchanged when `id` is already present.
fn insert_sorted_asc(b: &Vec<Ident>, id: &Ident) -> (r: Vec<Ident>)
    requires
        sorted_asc(b@),
        all_wf(b@),
        id.wf(),
    ensures
        sorted_asc(r@),
        all_wf(r@),
        forall|x: Seq<u8>| has_id(r@, x) <==> has_id(b@, x) || x == id@,
{
    let mut out: Vec<Ident> = Vec::new();
    let mut j: usize = 0;
    while j < b.len() && b[j].lt(id)
        invariant
            j <= b.len(),
            out@.len() == j,
            forall|p: int| 0 <= p < j ==> #[trigger] out@[p]@ == b@[p]@ && out@[p].wf(),
            all_wf(b@),
            forall|p: int| 0 <= p < j ==> lex_lt(b@[p]@, id@),
        decreases b.len() - j,
    {
        out.push(b[j].clone());
        j = j + 1;
    }
    let ghost mid = j as int;
    let ghost inserted = j == b.len() || lex_lt(id@, b@[mid]@);
    proof {
        assert forall|x: Seq<u8>| has_id(out@, x) <==> has_id(b@.subrange(0, mid), x) by {
            if has_id(out@, x) {
                let p = choose|p: int| 0 <= p < out@.len() && out@[p]@ == x;
                assert(b@.subrange(0, mid)[p]@ == x);
            }
            if has_id(b@.subrange(0, mid), x) {
                let p = choose|p: int|
                    0 <= p < b@.subrange(0, mid).len() && b@.subrange(0, mid)[p]@ == x;
                assert(out@[p]@ == x);
            }
        }
    }
    let ghost half = out@;
    if j == b.len() || id.lt(&b[j]) {
        out.push(id.clone());
        proof {
            if mid < b@.len() {
                assert forall|p: int| mid <= p < b@.len() implies lex_lt(id@, b@[p]@) by {
                    if p > mid {
                        lemma_lex_transitive(id@, b@[mid]@, b@[p]@);
                    }
                }
            }
            assert forall|x: Seq<u8>|
                has_id(out@, x) <==> (has_id(b@.subrange(0, j as int), x) || (inserted && x
                    == id@)) by {
                lemma_has_id_push(half, out@.last(), x);
            }
        }
    } else {
        proof {
            lemma_lex_trichotomy(id@, b@[mid]@);
            assert(b@[mid]@ == id@);
        }
    }
    while j < b.len()
        invariant
            mid <= j <= b.len(),
            sorted_asc(b@),
            all_wf(b@),
            id.wf(),
            sorted_asc(out@),
            all_wf(out@),
            !inserted ==> mid < b@.len() && b@[mid]@ == id@,
            forall|x: Seq<u8>| has_id(out@, x) <==> (has_id(b@.subrange(0, j as int), x) || (
            inserted && x == id@)),
            forall|p: int, q: int|
                #![trigger out@[p], b@[q]]
                0 <= p < out@.len() && j <= q < b@.len() ==> lex_lt(out@[p]@, b@[q]@),
        decreases b.len() - j,
    {
        let ghost pre = out@;
        out.push(b[j].clone());
        proof {
            assert(b@.subrange(0, j + 1) =~= b@.subrange(0, j as int).push(b@[j as int]));
            assert forall|x: Seq<u8>|
                has_id(out@, x) <==> (has_id(b@.subrange(0, j + 1), x) || (inserted && x
                    == id@)) by {
                lemma_has_id_push(pre, out@.last(), x);
                lemma_has_id_push(b@.subrange(0, j as int), b@[j as int], x);
            }
        }
        j = j + 1;
    }
    proof {
        assert(b@.subrange(0, b@.len() as int) =~= b@);
    }
    out
}

/// All-ASCII byte strings are valid UTF-8.
proof fn lemma_ascii_valid_utf8(b: Seq<u8>)
    requires
        forall|i: int| 0 <= i < b.len() ==> b[i] < 128,
    ensures
        valid_utf8(b),
{
    assert(b.subrange(0, 0) =~= Seq::<u8>::empty());
    assert(vstd::utf8::partial_valid_utf8(b, 0));
    assert forall|i: int| 0 <= 0 <= i < b.len() <= b.len() implies vstd::utf8::is_leading_byte_width_1(
        b[i],
    ) by {}
    vstd::utf8::partial_valid_utf8_extend_ascii_block(b, 0, b.len() as int);
    assert(b.subrange(0, b.len() as int) =~= b);
}

/// Membership of an identity text in a bucket map.
pub open spec fn idxm_has(m: Map<Seq<u8>, Vec<Ident>>, k: Seq<u8>, x: Seq<u8>) -> bool {
    m.contains_key(k) && has_id(m[k]@, x)
}

/// Every bucket of the map is sorted descending and holds
/// well-formed identities.
pub open spec fn idxm_wf(m: Map<Seq<u8>, Vec<Ident>>) -> bool {
    forall|k: Seq<u8>| #[trigger] m.contains_key(k) ==> sorted_desc(m[k]@) && all_wf(m[k]@)
}

/// Inserts `id` into the bucket stored under `key`, creating the
/// bucket when absent.
fn index_insert(index: &mut AList<Vec<Ident>>, key: Vec<u8>, id: &Ident)
    requires
        old(index).wf(),
        idxm_wf(old(index)@),
        id.wf(),
    ensures
        final(index).wf(),
        idxm_wf(final(index)@),
        forall|k: Seq<u8>| #[trigger] final(index)@.contains_key(k) <==> old(
            index,
        )@.contains_key(k) || k == key@,
        forall|k: Seq<u8>| k != key@ && old(index)@.contains_key(k) ==> final(index)@[k] == old(
            index,
        )@[k],
        forall|x: Seq<u8>| idxm_has(final(index)@, key@, x) <==> idxm_has(old(index)@, key@, x)
            || x == id@,
{
    let newb: Vec<Ident> = match index.get(&key) {
        Some(b) => insert_sorted_desc(b, id),
        None => {
            let mut v: Vec<Ident> = Vec::new();
            v.push(id.clone());
            proof {
                assert(v@[0]@ == id@);
            }
            v
        },
    };
    index.upsert(key, newb);
}

/// Removes the identity text `id` from the bucket stored under
/// `key`, if that bucket exists.
fn index_retract(index: &mut AList<Vec<Ident>>, key: Vec<u8>, id: &Vec<u8>)
    requires
        old(index).wf(),
        idxm_wf(old(index)@),
    ensures
        final(index).wf(),
        idxm_wf(final(index)@),
        forall|k: Seq<u8>| #[trigger] final(index)@.contains_key(k) <==> old(
            index,
        )@.contains_key(k),
        forall|k: Seq<u8>| k != key@ && old(index)@.contains_key(k) ==> final(index)@[k] == old(
            index,
        )@[k],
        forall|x: Seq<u8>| idxm_has(final(index)@, key@, x) <==> idxm_has(old(index)@, key@, x)
            && x != id@,
{
    let newb: Vec<Ident> = match index.get(&key) {
        Some(b) => remove_id(b, id),
        None => {
            return ;
        },
    };
    index.upsert(key, newb);
}

/// The forward index key of a label: its `key=value` byte text.
pub open spec fn label_fwd(l: DefaultLabel) -> Seq<u8> {
    forward_bytes(l.0@, l.1@)
}

/// The reverse index key of a label: its `value=key` byte text.
pub open spec fn label_rev(l: DefaultLabel) -> Seq<u8> {
    reverse_bytes(l.0@, l.1@)
}

/// The reference in-process backend: four associative structures
/// owned exclusively by the instance.
pub struct MemoryBackend {
    /// The objects, keyed by identity text.
    objects: AList<DefaultObject>,
    /// The forward index: `key=value` label text to identities.
    metadata: AList<Vec<Ident>>,
    /// The reverse index: `value=key` label text to identities.
    metadata_rtl: AList<Vec<Ident>>,
    /// The authoritative record: identity to the label set supplied
    /// at its most recent `put`.
    object_metadata: AList<Vec<DefaultLabel>>,
}

impl MemoryBackend {
    /// The stored objects: identity text to payload bytes.
    pub closed spec fn objects_map(&self) -> Map<Seq<u8>, Seq<u8>> {
        Map::new(
            |k: Seq<u8>| self.objects@.contains_key(k),
            |k: Seq<u8>| self.objects@[k]@,
        )
    }

    /// The recorded label sets: identity text to the labels supplied
    /// at its most recent `put`.
    pub closed spec fn labels_map(&self) -> Map<Seq<u8>, Seq<DefaultLabel>> {
        Map::new(
            |k: Seq<u8>| self.object_metadata@.contains_key(k),
            |k: Seq<u8>| self.object_metadata@[k]@,
        )
    }

    /// Whether the forward index has a bucket for the label text `k`.
    pub closed spec fn fwd_has_key(&self, k: Seq<u8>) -> bool {
        self.metadata@.contains_key(k)
    }

    /// Whether the forward index lists identity text `x` under the
    /// label text `k`.
    pub closed spec fn fwd_has(&self, k: Seq<u8>, x: Seq<u8>) -> bool {
        idxm_has(self.metadata@, k, x)
    }

    /// Whether the reverse index has a bucket for the label text `k`.
    pub closed spec fn rev_has_key(&self, k: Seq<u8>) -> bool {
        self.metadata_rtl@.contains_key(k)
    }

    /// Whether the reverse index lists identity text `x` under the
    /// label text `k`.
    pub closed spec fn rev_has(&self, k: Seq<u8>, x: Seq<u8>) -> bool {
        idxm_has(self.metadata_rtl@, k, x)
    }

    /// An identity `x` listed under `k` is recorded: `x` has a label
    /// set on record, and some label in it has forward text `k`.
    spec fn recorded_fwd(&self, k: Seq<u8>, x: Seq<u8>) -> bool {
        &&& self.object_metadata@.contains_key(x)
        &&& exists|j: int|
            0 <= j < self.object_metadata@[x]@.len() && label_fwd(
                #[trigger] self.object_metadata@[x]@[j],
            ) == k
    }

    /// The reverse-index counterpart of `recorded_fwd`.
    spec fn recorded_rev(&self, k: Seq<u8>, x: Seq<u8>) -> bool {
        &&& self.object_metadata@.contains_key(x)
        &&& exists|j: int|
            0 <= j < self.object_metadata@[x]@.len() && label_rev(
                #[trigger] self.object_metadata@[x]@[j],
            ) == k
    }

    /// The backend's consistency invariant: the four structures are
    /// well formed, an object and its label record exist together,
    /// buckets are sorted and duplicate-free, and every index entry
    /// is backed by the recorded label set of the identity it lists.
    pub closed spec fn wf(&self) -> bool {
        &&& self.objects.wf()
        &&& self.metadata.wf()
        &&& self.metadata_rtl.wf()
        &&& self.object_metadata.wf()
        &&& self.object_metadata@.dom() == self.objects@.dom()
        &&& idxm_wf(self.metadata@)
        &&& idxm_wf(self.metadata_rtl@)
        &&& forall|k: Seq<u8>, x: Seq<u8>| #[trigger] self.fwd_has(k, x) ==> self.recorded_fwd(k, x)
        &&& forall|k: Seq<u8>, x: Seq<u8>| #[trigger] self.rev_has(k, x) ==> self.recorded_rev(k, x)
    }

    /// Opens a fresh in-process backend; the location is irrelevant
    /// and the backend always starts empty.
    pub fn open(location: &str) -> (r: Result<MemoryBackend, Error>)
        ensures
            r matches Ok(b),
            r matches Ok(b) ==> ({
                &&& b.wf()
                &&& b.objects_map() == Map::<Seq<u8>, Seq<u8>>::empty()
                &&& b.labels_map() == Map::<Seq<u8>, Seq<DefaultLabel>>::empty()
                &&& forall|k: Seq<u8>| !b.fwd_has_key(k)
                &&& forall|k: Seq<u8>| !b.rev_has_key(k)
                &&& forall|k: Seq<u8>, x: Seq<u8>| !b.fwd_has(k, x)
                &&& forall|k: Seq<u8>, x: Seq<u8>| !b.rev_has(k, x)
            }),
    {
        let _ = location;
        let b = MemoryBackend {
            objects: AList::new(),
            metadata: AList::new(),
            metadata_rtl: AList::new(),
            object_metadata: AList::new(),
        };
        proof {
            assert(b.objects_map() =~= Map::<Seq<u8>, Seq<u8>>::empty());
            assert(b.labels_map() =~= Map::<Seq<u8>, Seq<DefaultLabel>>::empty());
            assert(b.object_metadata@.dom() =~= b.objects@.dom());
        }
        Ok(b)
    }

    /// Durability barrier; a no-op for the in-process backend.
    pub fn sync(&self) -> (r: Result<(), Error>)
        ensures
            r is Ok,
    {
        Ok(())
    }

    /// Derives the identity of an object from its content: the
    /// decimal text of the content's hash.  Total and deterministic;
    /// identical bytes always produce the identical identity.
    pub fn new_ident(&self, item: &DefaultObject) -> (r: Result<Ident, Error>)
        ensures
            r matches Ok(id) && id@ == ident_of(item@) && id.wf(),
    {
        let h = hash_bytes(item.content());
        let mut text: Vec<u8> = Vec::new();
        push_decimal(h, &mut text);
        proof {
            lemma_dec_of_digits(h);
            assert(text@ =~= crate::hash::dec_of(h));
            lemma_ascii_valid_utf8(text@);
        }
        Ok(Ident { text })
    }

    /// Retrieves a copy of the object stored under `ident`; `None`
    /// means not present and is not an error.
    pub fn get(&self, ident: Ident) -> (r: Result<Option<DefaultObject>, Error>)
        requires
            self.wf(),
        ensures
            r matches Ok(o),
            r matches Ok(o) ==> ({
                &&& o is Some <==> self.objects_map().contains_key(ident@)
                &&& o matches Some(obj) ==> obj@ == self.objects_map()[ident@]
            }),
    {
        let kb = ident.key_bytes();
        match self.objects.get(&kb) {
            Some(o) => Ok(Some(o.clone())),
            None => Ok(None),
        }
    }

    /// Stores the object under its content-derived identity and
    /// indexes it under the supplied labels.  Storing content that
    /// already exists overwrites the object, retracts the index
    /// entries of the previously recorded label set, and replaces the
    /// record wholesale with the new set, so the indexes always agree
    /// with the record.
    #[verifier::rlimit(100)]
    pub fn put(&mut self, item: DefaultObject, meta: Vec<DefaultLabel>) -> (r: Result<Ident, Error>)
        requires
            old(self).wf(),
        ensures
            final(self).wf(),
            r matches Ok(id),
            r matches Ok(id) ==> ({
                &&& id@ == ident_of(item@)
                &&& id.wf()
                &&& final(self).objects_map() == old(self).objects_map().insert(
                    ident_of(item@),
                    item@,
                )
                &&& final(self).labels_map() == old(self).labels_map().insert(
                    ident_of(item@),
                    meta@,
                )
                &&& forall|k: Seq<u8>|
                    final(self).fwd_has_key(k) <==> old(self).fwd_has_key(k) || covered_fwd(
                        meta@,
                        k,
                    )
                &&& forall|k: Seq<u8>, x: Seq<u8>|
                    x != ident_of(item@) ==> (final(self).fwd_has(k, x) <==> old(self).fwd_has(
                        k,
                        x,
                    ))
                &&& forall|k: Seq<u8>|
                    final(self).fwd_has(k, ident_of(item@)) <==> covered_fwd(meta@, k)
                &&& forall|k: Seq<u8>|
                    final(self).rev_has_key(k) <==> old(self).rev_has_key(k) || covered_rev(
                        meta@,
                        k,
                    )
                &&& forall|k: Seq<u8>, x: Seq<u8>|
                    x != ident_of(item@) ==> (final(self).rev_has(k, x) <==> old(self).rev_has(
                        k,
                        x,
                    ))
                &&& forall|k: Seq<u8>|
                    final(self).rev_has(k, ident_of(item@)) <==> covered_rev(meta@, k)
            }),
    {
        let ghost orig = *self;
        let id = match self.new_ident(&item) {
            Ok(i) => i,
            Err(_) => {
                return vstd::pervasive::unreached();
            },
        };
        let kb = id.key_bytes();

        // reconcile: retract the index entries of the previously
        // recorded label set
        let prior = self.object_metadata.remove(&kb);
        match prior {
            Some(old_labels) => {
                let mut i: usize = 0;
                while i < old_labels.len()
                    invariant
                        orig.wf(),
                        kb@ == id@,
                        self.objects == orig.objects,
                        self.object_metadata.wf(),
                        self.object_metadata@ == orig.object_metadata@.remove(kb@),
                        orig.object_metadata@.contains_key(kb@),
                        orig.object_metadata@[kb@] == old_labels,
                        self.metadata.wf(),
                        idxm_wf(self.metadata@),
                        self.metadata_rtl.wf(),
                        idxm_wf(self.metadata_rtl@),
                        i <= old_labels@.len(),
                        forall|k: Seq<u8>| #[trigger]
                            self.metadata@.contains_key(k) <==> orig.metadata@.contains_key(k),
                        forall|k: Seq<u8>| #[trigger]
                            self.metadata_rtl@.contains_key(k) <==> orig.metadata_rtl@.contains_key(
                                k,
                            ),
                        forall|k: Seq<u8>, x: Seq<u8>|
                            #![trigger idxm_has(self.metadata@, k, x)]
                            x != kb@ ==> (idxm_has(self.metadata@, k, x) <==> idxm_has(
                                orig.metadata@,
                                k,
                                x,
                            )),
                        forall|k: Seq<u8>, x: Seq<u8>|
                            #![trigger idxm_has(self.metadata_rtl@, k, x)]
                            x != kb@ ==> (idxm_has(self.metadata_rtl@, k, x) <==> idxm_has(
                                orig.metadata_rtl@,
                                k,
                                x,
                            )),
                        forall|k: Seq<u8>|
                            #![trigger idxm_has(self.metadata@, k, kb@)]
                            idxm_has(self.metadata@, k, kb@) <==> idxm_has(orig.metadata@, k, kb@)
                                && !covered_fwd(old_labels@.take(i as int), k),
                        forall|k: Seq<u8>|
                            #![trigger idxm_has(self.metadata_rtl@, k, kb@)]
                            idxm_has(self.metadata_rtl@, k, kb@) <==> idxm_has(
                                orig.metadata_rtl@,
                                k,
                                kb@,
                            ) && !covered_rev(old_labels@.take(i as int), k),
                    decreases old_labels@.len() - i,
                {
                    retract_step(
                        &mut self.metadata,
                        &mut self.metadata_rtl,
                        &old_labels,
                        i,
                        &kb,
                        Ghost(orig.metadata@),
                        Ghost(orig.metadata_rtl@),
                    );
                    i = i + 1;
                }
                proof {
                    assert(old_labels@.take(old_labels@.len() as int) =~= old_labels@);
                    assert forall|k: Seq<u8>| !idxm_has(self.metadata@, k, kb@) by {
                        if idxm_has(self.metadata@, k, kb@) {
                            assert(orig.fwd_has(k, kb@));
                            assert(orig.recorded_fwd(k, kb@));
                            let j = choose|j: int|
                                0 <= j < orig.object_metadata@[kb@]@.len() && label_fwd(
                                    #[trigger] orig.object_metadata@[kb@]@[j],
                                ) == k;
                            assert(label_fwd(old_labels@[j]) == k);
                            assert(covered_fwd(old_labels@, k));
                        }
                    }
                    assert forall|k: Seq<u8>| !idxm_has(self.metadata_rtl@, k, kb@) by {
                        if idxm_has(self.metadata_rtl@, k, kb@) {
                            assert(orig.rev_has(k, kb@));
                            assert(orig.recorded_rev(k, kb@));
                            let j = choose|j: int|
                                0 <= j < orig.object_metadata@[kb@]@.len() && label_rev(
                                    #[trigger] orig.object_metadata@[kb@]@[j],
                                ) == k;
                            assert(label_rev(old_labels@[j]) == k);
                            assert(covered_rev(old_labels@, k));
                        }
                    }
                }
            },
            None => {
                proof {
                    assert(self.object_metadata@ =~= orig.object_metadata@.remove(kb@));
                    assert forall|k: Seq<u8>| !idxm_has(self.metadata@, k, kb@) by {
                        if idxm_has(self.metadata@, k, kb@) {
                            assert(orig.fwd_has(k, kb@));
                            assert(orig.recorded_fwd(k, kb@));
                        }
                    }
                    assert forall|k: Seq<u8>| !idxm_has(self.metadata_rtl@, k, kb@) by {
                        if idxm_has(self.metadata_rtl@, k, kb@) {
                            assert(orig.rev_has(k, kb@));
                            assert(orig.recorded_rev(k, kb@));
                        }
                    }
                }
            },
        }

        // store or overwrite the object
        self.objects.upsert(copy_bytes(&kb), item);

        // insert the new label set into both indexes
        let ghost objs_mid = self.objects@;
        let mut i: usize = 0;
        while i < meta.len()
            invariant
                kb@ == id@,
                id.wf(),
                self.objects@ == objs_mid,
                self.objects.wf(),
                self.object_metadata.wf(),
                self.object_metadata@ == orig.object_metadata@.remove(kb@),
                self.metadata.wf(),
                idxm_wf(self.metadata@),
                self.metadata_rtl.wf(),
                idxm_wf(self.metadata_rtl@),
                i <= meta@.len(),
                forall|k: Seq<u8>| #[trigger]
                    self.metadata@.contains_key(k) <==> orig.metadata@.contains_key(k)
                        || covered_fwd(meta@.take(i as int), k),
                forall|k: Seq<u8>| #[trigger]
                    self.metadata_rtl@.contains_key(k) <==> orig.metadata_rtl@.contains_key(k)
                        || covered_rev(meta@.take(i as int), k),
                forall|k: Seq<u8>, x: Seq<u8>|
                    #![trigger idxm_has(self.metadata@, k, x)]
                    x != kb@ ==> (idxm_has(self.metadata@, k, x) <==> idxm_has(
                        orig.metadata@,
                        k,
                        x,
                    )),
                forall|k: Seq<u8>, x: Seq<u8>|
                    #![trigger idxm_has(self.metadata_rtl@, k, x)]
                    x != kb@ ==> (idxm_has(self.metadata_rtl@, k, x) <==> idxm_has(
                        orig.metadata_rtl@,
                        k,
                        x,
                    )),
                forall|k: Seq<u8>|
                    #![trigger idxm_has(self.metadata@, k, kb@)]
                    idxm_has(self.metadata@, k, kb@) <==> covered_fwd(meta@.take(i as int), k),
                forall|k: Seq<u8>|
                    #![trigger idxm_has(self.metadata_rtl@, k, kb@)]
                    idxm_has(self.metadata_rtl@, k, kb@) <==> covered_rev(meta@.take(i as int), k),
            decreases meta@.len() - i,
        {
            insert_step(
                &mut self.metadata,
                &mut self.metadata_rtl,
                &meta,
                i,
                &id,
                Ghost(orig.metadata@),
                Ghost(orig.metadata_rtl@),
            );
            i = i + 1;
        }

        // replace the record wholesale with the new label set
        self.object_metadata.upsert(kb, meta);

        proof {
            assert(meta@.take(meta@.len() as int) =~= meta@);
            assert(self.objects_map() =~= orig.objects_map().insert(id@, item@));
            assert(self.labels_map() =~= orig.labels_map().insert(id@, meta@));
            assert(self.object_metadata@.dom() =~= self.objects@.dom());
            assert forall|k: Seq<u8>, x: Seq<u8>| #[trigger]
                self.fwd_has(k, x) implies self.recorded_fwd(k, x) by {
                assert(idxm_has(self.metadata@, k, x));
                if x == id@ {
                    assert(idxm_has(self.metadata@, k, kb@));
                    assert(covered_fwd(meta@, k));
                    let q = choose|q: int|
                        0 <= q < meta@.len() && label_fwd(#[trigger] meta@[q]) == k;
                    assert(self.object_metadata@[x]@ == meta@);
                    assert(label_fwd(self.object_metadata@[x]@[q]) == k);
                } else {
                    assert(idxm_has(orig.metadata@, k, x));
                    assert(orig.fwd_has(k, x));
                    assert(orig.recorded_fwd(k, x));
                    let j = choose|j: int|
                        0 <= j < orig.object_metadata@[x]@.len() && label_fwd(
                            #[trigger] orig.object_metadata@[x]@[j],
                        ) == k;
                    assert(self.object_metadata@[x]@ == orig.object_metadata@[x]@);
                    assert(label_fwd(self.object_metadata@[x]@[j]) == k);
                }
            }
            assert forall|k: Seq<u8>, x: Seq<u8>| #[trigger]
                self.rev_has(k, x) implies self.recorded_rev(k, x) by {
                assert(idxm_has(self.metadata_rtl@, k, x));
                if x == id@ {
                    assert(idxm_has(self.metadata_rtl@, k, kb@));
                    assert(covered_rev(meta@, k));
                    let q = choose|q: int|
                        0 <= q < meta@.len() && label_rev(#[trigger] meta@[q]) == k;
                    assert(self.object_metadata@[x]@ == meta@);
                    assert(label_rev(self.object_metadata@[x]@[q]) == k);
                } else {
                    assert(idxm_has(orig.metadata_rtl@, k, x));
                    assert(orig.rev_has(k, x));
                    assert(orig.recorded_rev(k, x));
                    let j = choose|j: int|
                        0 <= j < orig.object_metadata@[x]@.len() && label_rev(
                            #[trigger] orig.object_metadata@[x]@[j],
                        ) == k;
                    assert(self.object_metadata@[x]@ == orig.object_metadata@[x]@);
                    assert(label_rev(self.object_metadata@[x]@[j]) == k);
                }
            }
        }
        Ok(id)
    }

    /// Removes the object stored under `ident`, removes its label
    /// record, and retracts its entries from both indexes, using the
    /// same key derivations the insert path used.  Fails with
    /// `ObjectNotFound` when nothing is stored under `ident`.
    #[verifier::rlimit(100)]
    pub fn delete(&mut self, ident: Ident) -> (r: Result<Option<DefaultObject>, Error>)
        requires
            old(self).wf(),
        ensures
            final(self).wf(),
            !old(self).objects_map().contains_key(ident@) ==> ({
                &&& r matches Err(e) && e matches Error::ObjectNotFound(t) && (ident.wf()
                    ==> encode_utf8(t@) == ident@)
                &&& final(self).objects_map() == old(self).objects_map()
                &&& final(self).labels_map() == old(self).labels_map()
                &&& forall|k: Seq<u8>| final(self).fwd_has_key(k) == old(self).fwd_has_key(k)
                &&& forall|k: Seq<u8>, x: Seq<u8>|
                    final(self).fwd_has(k, x) == old(self).fwd_has(k, x)
                &&& forall|k: Seq<u8>| final(self).rev_has_key(k) == old(self).rev_has_key(k)
                &&& forall|k: Seq<u8>, x: Seq<u8>|
                    final(self).rev_has(k, x) == old(self).rev_has(k, x)
            }),
            old(self).objects_map().contains_key(ident@) ==> ({
                &&& r matches Ok(o) && o matches Some(obj) && obj@ == old(
                    self,
                ).objects_map()[ident@]
                &&& final(self).objects_map() == old(self).objects_map().remove(ident@)
                &&& final(self).labels_map() == old(self).labels_map().remove(ident@)
                &&& forall|k: Seq<u8>| final(self).fwd_has_key(k) == old(self).fwd_has_key(k)
                &&& forall|k: Seq<u8>, x: Seq<u8>|
                    final(self).fwd_has(k, x) <==> old(self).fwd_has(k, x) && x != ident@
                &&& forall|k: Seq<u8>| final(self).rev_has_key(k) == old(self).rev_has_key(k)
                &&& forall|k: Seq<u8>, x: Seq<u8>|
                    final(self).rev_has(k, x) <==> old(self).rev_has(k, x) && x != ident@
            }),
    {
        let ghost orig = *self;
        let kb = ident.key_bytes();
        let obj = match self.objects.remove(&kb) {
            Some(o) => o,
            None => {
                proof {
                    assert(self.objects_map() =~= orig.objects_map());
                    assert(self.labels_map() =~= orig.labels_map());
                    assert forall|k: Seq<u8>, x: Seq<u8>| #[trigger]
                        self.fwd_has(k, x) implies self.recorded_fwd(k, x) by {
                        assert(orig.fwd_has(k, x));
                        assert(orig.recorded_fwd(k, x));
                    }
                    assert forall|k: Seq<u8>, x: Seq<u8>| #[trigger]
                        self.rev_has(k, x) implies self.recorded_rev(k, x) by {
                        assert(orig.rev_has(k, x));
                        assert(orig.recorded_rev(k, x));
                    }
                }
                return Err(Error::ObjectNotFound(text_of(&kb)));
            },
        };
        let rec = self.object_metadata.remove(&kb);
        let labels = match rec {
            Some(ls) => ls,
            None => Vec::new(),
        };
        proof {
            assert(orig.object_metadata@.contains_key(kb@));
            assert(orig.labels_map()[kb@] == labels@);
        }
        let mut i: usize = 0;
        while i < labels.len()
            invariant
                orig.wf(),
                kb@ == ident@,
                self.objects.wf(),
                self.objects@ == orig.objects@.remove(kb@),
                self.object_metadata.wf(),
                self.object_metadata@ == orig.object_metadata@.remove(kb@),
                orig.object_metadata@.contains_key(kb@),
                orig.object_metadata@[kb@]@ == labels@,
                self.metadata.wf(),
                idxm_wf(self.metadata@),
                self.metadata_rtl.wf(),
                idxm_wf(self.metadata_rtl@),
                i <= labels@.len(),
                forall|k: Seq<u8>| #[trigger]
                    self.metadata@.contains_key(k) <==> orig.metadata@.contains_key(k),
                forall|k: Seq<u8>| #[trigger]
                    self.metadata_rtl@.contains_key(k) <==> orig.metadata_rtl@.contains_key(k),
                forall|k: Seq<u8>, x: Seq<u8>|
                    #![trigger idxm_has(self.metadata@, k, x)]
                    x != kb@ ==> (idxm_has(self.metadata@, k, x) <==> idxm_has(
                        orig.metadata@,
                        k,
                        x,
                    )),
                forall|k: Seq<u8>, x: Seq<u8>|
                    #![trigger idxm_has(self.metadata_rtl@, k, x)]
                    x != kb@ ==> (idxm_has(self.metadata_rtl@, k, x) <==> idxm_has(
                        orig.metadata_rtl@,
                        k,
                        x,
                    )),
                forall|k: Seq<u8>|
                    #![trigger idxm_has(self.metadata@, k, kb@)]
                    idxm_has(self.metadata@, k, kb@) <==> idxm_has(orig.metadata@, k, kb@)
                        && !covered_fwd(labels@.take(i as int), k),
                forall|k: Seq<u8>|
                    #![trigger idxm_has(self.metadata_rtl@, k, kb@)]
                    idxm_has(self.metadata_rtl@, k, kb@) <==> idxm_has(orig.metadata_rtl@, k, kb@)
                        && !covered_rev(labels@.take(i as int), k),
            decreases labels@.len() - i,
        {
            retract_step(
                &mut self.metadata,
                &mut self.metadata_rtl,
                &labels,
                i,
                &kb,
                Ghost(orig.metadata@),
                Ghost(orig.metadata_rtl@),
            );
            i = i + 1;
        }
        proof {
            assert(labels@.take(labels@.len() as int) =~= labels@);
            assert forall|k: Seq<u8>| !idxm_has(self.metadata@, k, kb@) by {
                if idxm_has(self.metadata@, k, kb@) {
                    assert(orig.fwd_has(k, kb@));
                    assert(orig.recorded_fwd(k, kb@));
                    let j = choose|j: int|
                        0 <= j < orig.object_metadata@[kb@]@.len() && label_fwd(
                            #[trigger] orig.object_metadata@[kb@]@[j],
                        ) == k;
                    assert(label_fwd(labels@[j]) == k);
                    assert(covered_fwd(labels@, k));
                }
            }
            assert forall|k: Seq<u8>| !idxm_has(self.metadata_rtl@, k, kb@) by {
                if idxm_has(self.metadata_rtl@, k, kb@) {
                    assert(orig.rev_has(k, kb@));
                    assert(orig.recorded_rev(k, kb@));
                    let j = choose|j: int|
                        0 <= j < orig.object_metadata@[kb@]@.len() && label_rev(
                            #[trigger] orig.object_metadata@[kb@]@[j],
                        ) == k;
                    assert(label_rev(labels@[j]) == k);
                    assert(covered_rev(labels@, k));
                }
            }
            assert(self.objects_map() =~= orig.objects_map().remove(ident@));
            assert(self.labels_map() =~= orig.labels_map().remove(ident@));
            assert(self.object_metadata@.dom() =~= self.objects@.dom());
            assert forall|k: Seq<u8>, x: Seq<u8>| #[trigger]
                self.fwd_has(k, x) implies self.recorded_fwd(k, x) by {
                assert(idxm_has(self.metadata@, k, x));
                assert(!idxm_has(self.metadata@, k, kb@));
                assert(x != kb@);
                assert(idxm_has(orig.metadata@, k, x));
                assert(orig.fwd_has(k, x));
                assert(orig.recorded_fwd(k, x));
                let j = choose|j: int|
                    0 <= j < orig.object_metadata@[x]@.len() && label_fwd(
                        #[trigger] orig.object_metadata@[x]@[j],
                    ) == k;
                assert(self.object_metadata@[x]@ == orig.object_metadata@[x]@);
                assert(label_fwd(self.object_metadata@[x]@[j]) == k);
            }
            assert forall|k: Seq<u8>, x: Seq<u8>| #[trigger]
                self.rev_has(k, x) implies self.recorded_rev(k, x) by {
                assert(idxm_has(self.metadata_rtl@, k, x));
                assert(!idxm_has(self.metadata_rtl@, k, kb@));
                assert(x != kb@);
                assert(idxm_has(orig.metadata_rtl@, k, x));
                assert(orig.rev_has(k, x));
                assert(orig.recorded_rev(k, x));
                let j = choose|j: int|
                    0 <= j < orig.object_metadata@[x]@.len() && label_rev(
                        #[trigger] orig.object_metadata@[x]@[j],
                    ) == k;
                assert(self.object_metadata@[x]@ == orig.object_metadata@[x]@);
                assert(label_rev(self.object_metadata@[x]@[j]) == k);
            }
        }
        Ok(Some(obj))
    }

    /// Whether the forward index lists `x` under the forward text of
    /// some label in the query.
    pub open spec fn matches_query(&self, meta: Seq<DefaultLabel>, x: Seq<u8>) -> bool {
        exists|q: int| 0 <= q < meta.len() && self.fwd_has(label_fwd(#[trigger] meta[q]), x)
    }

    /// Extending a query by one label extends its matches by that
    /// label's bucket.
    proof fn lemma_matches_take(&self, meta: Seq<DefaultLabel>, i: int, x: Seq<u8>)
        requires
            0 <= i < meta.len(),
        ensures
            self.matches_query(meta.take(i + 1), x) <==> self.matches_query(meta.take(i), x)
                || self.fwd_has(label_fwd(meta[i]), x),
    {
        if self.matches_query(meta.take(i + 1), x) {
            let q = choose|q: int|
                0 <= q < meta.take(i + 1).len() && self.fwd_has(
                    label_fwd(#[trigger] meta.take(i + 1)[q]),
                    x,
                );
            if q < i {
                assert(meta.take(i)[q] == meta.take(i + 1)[q]);
                assert(self.fwd_has(label_fwd(meta.take(i)[q]), x));
            } else {
                assert(meta.take(i + 1)[q] == meta[i]);
            }
        }
        if self.matches_query(meta.take(i), x) {
            let q = choose|q: int|
                0 <= q < meta.take(i).len() && self.fwd_has(
                    label_fwd(#[trigger] meta.take(i)[q]),
                    x,
                );
            assert(meta.take(i + 1)[q] == meta.take(i)[q]);
            assert(self.fwd_has(label_fwd(meta.take(i + 1)[q]), x));
        }
        if self.fwd_has(label_fwd(meta[i]), x) {
            assert(meta.take(i + 1)[i] == meta[i]);
            assert(self.fwd_has(label_fwd(meta.take(i + 1)[i]), x));
        }
    }

    /// Looks up each queried label's forward-index bucket and returns
    /// the union of the identities found across all queried labels,
    /// deduplicated and sorted ascending by identity text; `None`
    /// rather than an empty list when nothing matches.
    #[verifier::rlimit(100)]
    pub fn find_by_metadata(&self, metadata_items: Vec<DefaultLabel>) -> (r: Result<
        Option<Vec<Ident>>,
        Error,
    >)
        requires
            self.wf(),
        ensures
            r matches Ok(o),
            r matches Ok(o) ==> match o {
                Some(ids) => {
                    &&& ids@.len() > 0
                    &&& sorted_asc(ids@)
                    &&& all_wf(ids@)
                    &&& forall|x: Seq<u8>|
                        has_id(ids@, x) <==> self.matches_query(metadata_items@, x)
                },
                None => forall|x: Seq<u8>| !self.matches_query(metadata_items@, x),
            },
    {
        let mut out: Vec<Ident> = Vec::new();
        let mut i: usize = 0;
        while i < metadata_items.len()
            invariant
                self.wf(),
                i <= metadata_items@.len(),
                sorted_asc(out@),
                all_wf(out@),
                forall|x: Seq<u8>|
                    has_id(out@, x) <==> self.matches_query(metadata_items@.take(i as int), x),
            decreases metadata_items@.len() - i,
        {
            let fk = metadata_items[i].forward_key();
            match self.metadata.get(&fk) {
                Some(bucket) => {
                    let mut j: usize = 0;
                    while j < bucket.len()
                        invariant
                            self.wf(),
                            i < metadata_items@.len(),
                            fk@ == label_fwd(metadata_items@[i as int]),
                            self.metadata@.contains_key(fk@),
                            bucket@ == self.metadata@[fk@]@,
                            all_wf(bucket@),
                            j <= bucket@.len(),
                            sorted_asc(out@),
                            all_wf(out@),
                            forall|x: Seq<u8>|
                                has_id(out@, x) <==> self.matches_query(
                                    metadata_items@.take(i as int),
                                    x,
                                ) || has_id(bucket@.take(j as int), x),
                        decreases bucket@.len() - j,
                    {
                        let merged = insert_sorted_asc(&out, &bucket[j]);
                        out = merged;
                        proof {
                            assert(bucket@.take(j as int + 1) =~= bucket@.take(j as int).push(
                                bucket@[j as int],
                            ));
                            assert forall|x: Seq<u8>|
                                has_id(bucket@.take(j as int + 1), x) <==> has_id(
                                    bucket@.take(j as int),
                                    x,
                                ) || bucket@[j as int]@ == x by {
                                lemma_has_id_push(bucket@.take(j as int), bucket@[j as int], x);
                            }
                        }
                        j = j + 1;
                    }
                    proof {
                        assert(bucket@.take(bucket@.len() as int) =~= bucket@);
                        assert forall|x: Seq<u8>|
                            has_id(out@, x) <==> self.matches_query(
                                metadata_items@.take(i as int + 1),
                                x,
                            ) by {
                            self.lemma_matches_take(metadata_items@, i as int, x);
                            assert(self.fwd_has(label_fwd(metadata_items@[i as int]), x) <==> has_id(
                                bucket@,
                                x,
                            ));
                        }
                    }
                },
                None => {
                    proof {
                        assert forall|x: Seq<u8>|
                            has_id(out@, x) <==> self.matches_query(
                                metadata_items@.take(i as int + 1),
                                x,
                            ) by {
                            self.lemma_matches_take(metadata_items@, i as int, x);
                            assert(!self.fwd_has(label_fwd(metadata_items@[i as int]), x));
                        }
                    }
                },
            }
            i = i + 1;
        }
        proof {
            assert(metadata_items@.take(metadata_items@.len() as int) =~= metadata_items@);
            assert forall|x: Seq<u8>|
                has_id(out@, x) <==> self.matches_query(metadata_items@, x) by {
                assert(has_id(out@, x) <==> self.matches_query(
                    metadata_items@.take(metadata_items@.len() as int),
                    x,
                ));
            }
            if out@.len() == 0 {
                assert forall|x: Seq<u8>| !self.matches_query(metadata_items@, x) by {
                    if self.matches_query(metadata_items@, x) {
                        assert(has_id(out@, x));
                        let p = choose|p: int| 0 <= p < out@.len() && out@[p]@ == x;
                    }
                }
            }
        }
        if out.len() == 0 {
            Ok(None)
        } else {
            Ok(Some(out))
        }
    }
}

/// Whether some label in `ls` has forward text `k`.
pub open spec fn covered_fwd(ls: Seq<DefaultLabel>, k: Seq<u8>) -> bool {
    exists|q: int| 0 <= q < ls.len() && label_fwd(#[trigger] ls[q]) == k
}

/// Whether some label in `ls` has reverse text `k`.
pub open spec fn covered_rev(ls: Seq<DefaultLabel>, k: Seq<u8>) -> bool {
    exists|q: int| 0 <= q < ls.len() && label_rev(#[trigger] ls[q]) == k
}

/// Appending a label extends the covered texts by exactly that
/// label's texts.
proof fn lemma_covered_push(ls: Seq<DefaultLabel>, e: DefaultLabel, k: Seq<u8>)
    ensures
        covered_fwd(ls.push(e), k) <==> covered_fwd(ls, k) || label_fwd(e) == k,
        covered_rev(ls.push(e), k) <==> covered_rev(ls, k) || label_rev(e) == k,
{
    if covered_fwd(ls.push(e), k) {
        let q = choose|q: int|
            0 <= q < ls.push(e).len() && label_fwd(#[trigger] ls.push(e)[q]) == k;
        if q < ls.len() {
            assert(label_fwd(ls[q]) == k);
        }
    }
    if covered_fwd(ls, k) {
        let q = choose|q: int| 0 <= q < ls.len() && label_fwd(#[trigger] ls[q]) == k;
        assert(label_fwd(ls.push(e)[q]) == k);
    }
    if label_fwd(e) == k {
        assert(label_fwd(ls.push(e)[ls.len() as int]) == k);
    }
    if covered_rev(ls.push(e), k) {
        let q = choose|q: int|
            0 <= q < ls.push(e).len() && label_rev(#[trigger] ls.push(e)[q]) == k;
        if q < ls.len() {
            assert(label_rev(ls[q]) == k);
        }
    }
    if covered_rev(ls, k) {
        let q = choose|q: int| 0 <= q < ls.len() && label_rev(#[trigger] ls[q]) == k;
        assert(label_rev(ls.push(e)[q]) == k);
    }
    if label_rev(e) == k {
        assert(label_rev(ls.push(e)[ls.len() as int]) == k);
    }
}

/// One step of retracting a recorded label set: removes the identity
/// text `kb` from the buckets of label `ls[i]` in both indexes.
fn retract_step(
    fwd: &mut AList<Vec<Ident>>,
    rev: &mut AList<Vec<Ident>>,
    ls: &Vec<DefaultLabel>,
    i: usize,
    kb: &Vec<u8>,
    Ghost(om): Ghost<Map<Seq<u8>, Vec<Ident>>>,
    Ghost(orm): Ghost<Map<Seq<u8>, Vec<Ident>>>,
)
    requires
        old(fwd).wf(),
        idxm_wf(old(fwd)@),
        old(rev).wf(),
        idxm_wf(old(rev)@),
        i < ls@.len(),
        forall|k: Seq<u8>| #[trigger] old(fwd)@.contains_key(k) <==> om.contains_key(k),
        forall|k: Seq<u8>| #[trigger] old(rev)@.contains_key(k) <==> orm.contains_key(k),
        forall|k: Seq<u8>, x: Seq<u8>|
            x != kb@ ==> (idxm_has(old(fwd)@, k, x) <==> idxm_has(om, k, x)),
        forall|k: Seq<u8>, x: Seq<u8>|
            x != kb@ ==> (idxm_has(old(rev)@, k, x) <==> idxm_has(orm, k, x)),
        forall|k: Seq<u8>|
            idxm_has(old(fwd)@, k, kb@) <==> idxm_has(om, k, kb@) && !covered_fwd(
                ls@.take(i as int),
                k,
            ),
        forall|k: Seq<u8>|
            idxm_has(old(rev)@, k, kb@) <==> idxm_has(orm, k, kb@) && !covered_rev(
                ls@.take(i as int),
                k,
            ),
    ensures
        final(fwd).wf(),
        idxm_wf(final(fwd)@),
        final(rev).wf(),
        idxm_wf(final(rev)@),
        forall|k: Seq<u8>| #[trigger] final(fwd)@.contains_key(k) <==> om.contains_key(k),
        forall|k: Seq<u8>| #[trigger] final(rev)@.contains_key(k) <==> orm.contains_key(k),
        forall|k: Seq<u8>, x: Seq<u8>|
            #![trigger idxm_has(final(fwd)@, k, x)]
            x != kb@ ==> (idxm_has(final(fwd)@, k, x) <==> idxm_has(om, k, x)),
        forall|k: Seq<u8>, x: Seq<u8>|
            #![trigger idxm_has(final(rev)@, k, x)]
            x != kb@ ==> (idxm_has(final(rev)@, k, x) <==> idxm_has(orm, k, x)),
        forall|k: Seq<u8>|
            #![trigger idxm_has(final(fwd)@, k, kb@)]
            idxm_has(final(fwd)@, k, kb@) <==> idxm_has(om, k, kb@) && !covered_fwd(
                ls@.take(i as int + 1),
                k,
            ),
        forall|k: Seq<u8>|
            #![trigger idxm_has(final(rev)@, k, kb@)]
            idxm_has(final(rev)@, k, kb@) <==> idxm_has(orm, k, kb@) && !covered_rev(
                ls@.take(i as int + 1),
                k,
            ),
{
    let ghost f0 = fwd@;
    let ghost r0 = rev@;
    let fk = ls[i].forward_key();
    index_retract(fwd, fk, kb);
    let rk = ls[i].reverse_key();
    index_retract(rev, rk, kb);
    proof {
        assert(ls@.take(i as int + 1) =~= ls@.take(i as int).push(ls@[i as int]));
        assert forall|k: Seq<u8>|
            idxm_has(fwd@, k, kb@) <==> (idxm_has(om, k, kb@) && !covered_fwd(
                ls@.take(i as int + 1),
                k,
            )) by {
            lemma_covered_push(ls@.take(i as int), ls@[i as int], k);
            assert(idxm_has(f0, k, kb@) <==> (idxm_has(om, k, kb@) && !covered_fwd(
                ls@.take(i as int),
                k,
            )));
            if k != label_fwd(ls@[i as int]) {
                assert(fwd@.contains_key(k) <==> f0.contains_key(k));
                if f0.contains_key(k) {
                    assert(fwd@[k] == f0[k]);
                }
                assert(idxm_has(fwd@, k, kb@) <==> idxm_has(f0, k, kb@));
            }
        }
        assert forall|k: Seq<u8>|
            idxm_has(rev@, k, kb@) <==> (idxm_has(orm, k, kb@) && !covered_rev(
                ls@.take(i as int + 1),
                k,
            )) by {
            lemma_covered_push(ls@.take(i as int), ls@[i as int], k);
            assert(idxm_has(r0, k, kb@) <==> (idxm_has(orm, k, kb@) && !covered_rev(
                ls@.take(i as int),
                k,
            )));
            if k != label_rev(ls@[i as int]) {
                assert(rev@.contains_key(k) <==> r0.contains_key(k));
                if r0.contains_key(k) {
                    assert(rev@[k] == r0[k]);
                }
                assert(idxm_has(rev@, k, kb@) <==> idxm_has(r0, k, kb@));
            }
        }
    }
}

/// One step of indexing a new label set: inserts the identity `id`
/// into the buckets of label `ls[i]` in both indexes.
fn insert_step(
    fwd: &mut AList<Vec<Ident>>,
    rev: &mut AList<Vec<Ident>>,
    ls: &Vec<DefaultLabel>,
    i: usize,
    id: &Ident,
    Ghost(om): Ghost<Map<Seq<u8>, Vec<Ident>>>,
    Ghost(orm): Ghost<Map<Seq<u8>, Vec<Ident>>>,
)
    requires
        old(fwd).wf(),
        idxm_wf(old(fwd)@),
        old(rev).wf(),
        idxm_wf(old(rev)@),
        i < ls@.len(),
        id.wf(),
        forall|k: Seq<u8>| #[trigger]
            old(fwd)@.contains_key(k) <==> om.contains_key(k) || covered_fwd(ls@.take(i as int), k),
        forall|k: Seq<u8>| #[trigger]
            old(rev)@.contains_key(k) <==> orm.contains_key(k) || covered_rev(
                ls@.take(i as int),
                k,
            ),
        forall|k: Seq<u8>, x: Seq<u8>|
            x != id@ ==> (idxm_has(old(fwd)@, k, x) <==> idxm_has(om, k, x)),
        forall|k: Seq<u8>, x: Seq<u8>|
            x != id@ ==> (idxm_has(old(rev)@, k, x) <==> idxm_has(orm, k, x)),
        forall|k: Seq<u8>| idxm_has(old(fwd)@, k, id@) <==> covered_fwd(ls@.take(i as int), k),
        forall|k: Seq<u8>| idxm_has(old(rev)@, k, id@) <==> covered_rev(ls@.take(i as int), k),
    ensures
        final(fwd).wf(),
        idxm_wf(final(fwd)@),
        final(rev).wf(),
        idxm_wf(final(rev)@),
        forall|k: Seq<u8>| #[trigger]
            final(fwd)@.contains_key(k) <==> om.contains_key(k) || covered_fwd(
                ls@.take(i as int + 1),
                k,
            ),
        forall|k: Seq<u8>| #[trigger]
            final(rev)@.contains_key(k) <==> orm.contains_key(k) || covered_rev(
                ls@.take(i as int + 1),
                k,
            ),
        forall|k: Seq<u8>, x: Seq<u8>|
            #![trigger idxm_has(final(fwd)@, k, x)]
            x != id@ ==> (idxm_has(final(fwd)@, k, x) <==> idxm_has(om, k, x)),
        forall|k: Seq<u8>, x: Seq<u8>|
            #![trigger idxm_has(final(rev)@, k, x)]
            x != id@ ==> (idxm_has(final(rev)@, k, x) <==> idxm_has(orm, k, x)),
        forall|k: Seq<u8>|
            #![trigger idxm_has(final(fwd)@, k, id@)]
            idxm_has(final(fwd)@, k, id@) <==> covered_fwd(ls@.take(i as int + 1), k),
        forall|k: Seq<u8>|
            #![trigger idxm_has(final(rev)@, k, id@)]
            idxm_has(final(rev)@, k, id@) <==> covered_rev(ls@.take(i as int + 1), k),
{
    let ghost f0 = fwd@;
    let ghost r0 = rev@;
    let fk = ls[i].forward_key();
    index_insert(fwd, fk, id);
    let rk = ls[i].reverse_key();
    index_insert(rev, rk, id);
    proof {
        assert(ls@.take(i as int + 1) =~= ls@.take(i as int).push(ls@[i as int]));
        assert forall|k: Seq<u8>|
            #![trigger fwd@.contains_key(k)]
            fwd@.contains_key(k) <==> om.contains_key(k) || covered_fwd(
                ls@.take(i as int + 1),
                k,
            ) by {
            lemma_covered_push(ls@.take(i as int), ls@[i as int], k);
            assert(f0.contains_key(k) <==> om.contains_key(k) || covered_fwd(
                ls@.take(i as int),
                k,
            ));
            if k != label_fwd(ls@[i as int]) {
                assert(fwd@.contains_key(k) <==> f0.contains_key(k));
            }
        }
        assert forall|k: Seq<u8>|
            #![trigger idxm_has(fwd@, k, id@)]
            idxm_has(fwd@, k, id@) <==> covered_fwd(ls@.take(i as int + 1), k) by {
            lemma_covered_push(ls@.take(i as int), ls@[i as int], k);
            assert(idxm_has(f0, k, id@) <==> covered_fwd(ls@.take(i as int), k));
            if k == label_fwd(ls@[i as int]) {
                assert(idxm_has(fwd@, k, id@));
            } else {
                assert(fwd@.contains_key(k) <==> f0.contains_key(k));
                if f0.contains_key(k) {
                    assert(fwd@[k] == f0[k]);
                }
                assert(idxm_has(fwd@, k, id@) <==> idxm_has(f0, k, id@));
            }
        }
        assert forall|k: Seq<u8>|
            #![trigger rev@.contains_key(k)]
            rev@.contains_key(k) <==> orm.contains_key(k) || covered_rev(
                ls@.take(i as int + 1),
                k,
            ) by {
            lemma_covered_push(ls@.take(i as int), ls@[i as int], k);
            assert(r0.contains_key(k) <==> orm.contains_key(k) || covered_rev(
                ls@.take(i as int),
                k,
            ));
            if k != label_rev(ls@[i as int]) {
                assert(rev@.contains_key(k) <==> r0.contains_key(k));
            }
        }
        assert forall|k: Seq<u8>|
            #![trigger idxm_has(rev@, k, id@)]
            idxm_has(rev@, k, id@) <==> covered_rev(ls@.take(i as int + 1), k) by {
            lemma_covered_push(ls@.take(i as int), ls@[i as int], k);
            assert(idxm_has(r0, k, id@) <==> covered_rev(ls@.take(i as int), k));
            if k == label_rev(ls@[i as int]) {
                assert(idxm_has(rev@, k, id@));
            } else {
                assert(rev@.contains_key(k) <==> r0.contains_key(k));
                if r0.contains_key(k) {
                    assert(rev@[k] == r0[k]);
                }
                assert(idxm_has(rev@, k, id@) <==> idxm_has(r0, k, id@));
            }
        }
    }
}

/// The identity text decoded from its bytes, or empty text where the
/// bytes do not decode.
fn text_of(b: &Vec<u8>) -> (r: String)
    ensures
        valid_utf8(b@) ==> encode_utf8(r@) == b@,
{
    match str_from_utf8(b.as_slice()) {
        Ok(s) => s.to_owned(),
        Err(_) => String::new(),
    }
}

impl crate::storage::StorageBackend for MemoryBackend {
    type Item = DefaultObject;

    type MetadataItem = DefaultLabel;

    type Ident = Ident;

    open spec fn inv(&self) -> bool {
        self.wf()
    }

    fn open(location: &str) -> Result<Self, Error> {
        MemoryBackend::open(location)
    }

    fn sync(&self) -> Result<(), Error> {
        MemoryBackend::sync(self)
    }

    fn new_ident(&self, item: &DefaultObject) -> Result<Ident, Error> {
        MemoryBackend::new_ident(self, item)
    }

    fn get(&self, ident: Ident) -> Result<Option<DefaultObject>, Error> {
        MemoryBackend::get(self, ident)
    }

    fn put(&mut self, item: DefaultObject, metadata: Vec<DefaultLabel>) -> Result<Ident, Error> {
        MemoryBackend::put(self, item, metadata)
    }

    fn delete(&mut self, ident: Ident) -> Result<Option<DefaultObject>, Error> {
        MemoryBackend::delete(self, ident)
    }
}

impl crate::storage::StorageBackendSearch for MemoryBackend {
    fn find_by_metadata(&self, metadata: Vec<DefaultLabel>) -> Result<Option<Vec<Ident>>, Error> {
        MemoryBackend::find_by_metadata(self, metadata)
    }
}

} // verus!

