//! In-memory associative structure keyed by byte strings.
//!
//! The reference backend keeps its four structures in association
//! lists with unique keys, viewed in specifications as a
//! `Map<Seq<u8>, V>` from key bytes to the stored value.

use vstd::prelude::*;

use crate::order::bytes_eq;

verus! {

/// An association list from byte-string keys to values of type `V`,
/// with no key occurring twice.
pub struct AList<V> {
    entries: Vec<(Vec<u8>, V)>,
}

/// The map described by an entry sequence; a later entry for a key
/// overrides an earlier one, though well-formed lists never repeat a
/// key.
pub open spec fn map_of<V>(s: Seq<(Vec<u8>, V)>) -> Map<Seq<u8>, V>
    decreases s.len(),
{
    if s.len() == 0 {
        Map::empty()
    } else {
        map_of(s.drop_last()).insert(s.last().0@, s.last().1)
    }
}

/// A key is in the map exactly when some entry carries it.
pub proof fn lemma_map_of_contains<V>(s: Seq<(Vec<u8>, V)>, k: Seq<u8>)
    ensures
        map_of(s).contains_key(k) <==> exists|i: int| 0 <= i < s.len() && #[trigger] s[i].0@ == k,
    decreases s.len(),
{
    if s.len() > 0 {
        lemma_map_of_contains(s.drop_last(), k);
        if map_of(s).contains_key(k) && s.last().0@ != k {
            let i = choose|i: int| 0 <= i < s.drop_last().len() && #[trigger] s.drop_last()[i].0@ == k;
            assert(s[i].0@ == k);
        }
        if exists|i: int| 0 <= i < s.len() && #[trigger] s[i].0@ == k {
            let i = choose|i: int| 0 <= i < s.len() && #[trigger] s[i].0@ == k;
            if i < s.len() - 1 {
                assert(s.drop_last()[i].0@ == k);
            }
        }
    }
}

impl<V> AList<V> {
    /// No key occurs in two entries.
    pub closed spec fn wf(&self) -> bool {
        forall|i: int, j: int|
            #![trigger self.entries@[i].0, self.entries@[j].0]
            0 <= i < j < self.entries@.len() ==> self.entries@[i].0@ != self.entries@[j].0@
    }

    /// An entry's key maps to that entry's value.
    proof fn lemma_index(&self, i: int)
        requires
            self.wf(),
            0 <= i < self.entries@.len(),
        ensures
            map_of(self.entries@).contains_key(self.entries@[i].0@),
            map_of(self.entries@)[self.entries@[i].0@] == self.entries@[i].1,
        decreases self.entries@.len(),
    {
        Self::lemma_index_seq(self.entries@, i);
    }

    proof fn lemma_index_seq(s: Seq<(Vec<u8>, V)>, i: int)
        requires
            forall|p: int, q: int|
                #![trigger s[p].0, s[q].0]
                0 <= p < q < s.len() ==> s[p].0@ != s[q].0@,
            0 <= i < s.len(),
        ensures
            map_of(s).contains_key(s[i].0@),
            map_of(s)[s[i].0@] == s[i].1,
        decreases s.len(),
    {
        if i < s.len() - 1 {
            assert(s.drop_last()[i] == s[i]);
            Self::lemma_index_seq(s.drop_last(), i);
        }
    }

    /// Removing an entry removes exactly its key from the map.
    proof fn lemma_remove_seq(s: Seq<(Vec<u8>, V)>, i: int)
        requires
            forall|p: int, q: int|
                #![trigger s[p].0, s[q].0]
                0 <= p < q < s.len() ==> s[p].0@ != s[q].0@,
            0 <= i < s.len(),
        ensures
            map_of(s.remove(i)) == map_of(s).remove(s[i].0@),
        decreases s.len(),
    {
        let k = s[i].0@;
        if i == s.len() - 1 {
            assert(s.remove(i) =~= s.drop_last());
            lemma_map_of_contains(s.drop_last(), k);
            assert(map_of(s.drop_last()) =~= map_of(s).remove(k));
        } else {
            assert(s.remove(i).drop_last() =~= s.drop_last().remove(i));
            Self::lemma_remove_seq(s.drop_last(), i);
            assert(s.remove(i).last() == s.last());
            assert(map_of(s.drop_last()).remove(k).insert(s.last().0@, s.last().1) =~= map_of(
                s.drop_last(),
            ).insert(s.last().0@, s.last().1).remove(k));
        }
    }

    /// Creates an empty association list.
    pub fn new() -> (r: Self)
        ensures
            r.wf(),
            r@ == Map::<Seq<u8>, V>::empty(),
    {
        AList { entries: Vec::new() }
    }

    /// The index of the entry carrying `k`, if any.
    fn index_of(&self, k: &Vec<u8>) -> (r: Option<usize>)
        ensures
            match r {
                Some(i) => i < self.entries@.len() && self.entries@[i as int].0@ == k@,
                None => forall|i: int|
                    0 <= i < self.entries@.len() ==> #[trigger] self.entries@[i].0@ != k@,
            },
    {
        let mut i: usize = 0;
        while i < self.entries.len()
            invariant
                i <= self.entries@.len(),
                forall|j: int| 0 <= j < i ==> #[trigger] self.entries@[j].0@ != k@,
            decreases self.entries@.len() - i,
        {
            if bytes_eq(&self.entries[i].0, k) {
                return Some(i);
            }
            i = i + 1;
        }
        None
    }

    /// The value stored under `k`, if any.
    pub fn get(&self, k: &Vec<u8>) -> (r: Option<&V>)
        requires
            self.wf(),
        ensures
            match r {
                Some(v) => self@.contains_key(k@) && *v == self@[k@],
                None => !self@.contains_key(k@),
            },
    {
        proof {
            lemma_map_of_contains(self.entries@, k@);
        }
        match self.index_of(k) {
            Some(i) => {
                proof {
                    self.lemma_index(i as int);
                }
                Some(&self.entries[i].1)
            },
            None => None,
        }
    }

    /// Stores `v` under `k`, replacing any previous value.
    pub fn upsert(&mut self, k: Vec<u8>, v: V)
        requires
            old(self).wf(),
        ensures
            final(self).wf(),
            final(self)@ == old(self)@.insert(k@, v),
    {
        proof {
            lemma_map_of_contains(self.entries@, k@);
        }
        let ghost pre = self.entries@;
        match self.index_of(&k) {
            Some(i) => {
                proof {
                    Self::lemma_remove_seq(pre, i as int);
                }
                self.entries.remove(i);
                let ghost mid = self.entries@;
                self.entries.push((k, v));
                proof {
                    assert(self.entries@.drop_last() =~= mid);
                    assert(map_of(self.entries@) =~= map_of(pre).insert(
                        self.entries@.last().0@,
                        self.entries@.last().1,
                    ));
                }
            },
            None => {
                self.entries.push((k, v));
                proof {
                    assert(self.entries@.drop_last() =~= pre);
                }
            },
        }
    }

    /// Removes and returns the value stored under `k`, if any.
    pub fn remove(&mut self, k: &Vec<u8>) -> (r: Option<V>)
        requires
            old(self).wf(),
        ensures
            final(self).wf(),
            match r {
                Some(v) => old(self)@.contains_key(k@) && v == old(self)@[k@] && final(self)@
                    == old(self)@.remove(k@),
                None => !old(self)@.contains_key(k@) && final(self)@ == old(self)@,
            },
    {
        proof {
            lemma_map_of_contains(self.entries@, k@);
        }
        let ghost pre = self.entries@;
        match self.index_of(k) {
            Some(i) => {
                proof {
                    self.lemma_index(i as int);
                    Self::lemma_remove_seq(pre, i as int);
                }
                let (_, v) = self.entries.remove(i);
                Some(v)
            },
            None => None,
        }
    }
}

impl<V> View for AList<V> {
    type V = Map<Seq<u8>, V>;

    closed spec fn view(&self) -> Map<Seq<u8>, V> {
        map_of(self.entries@)
    }
}

} // verus!
