//! Joint enumeration of the indices and values of a container.
use std::collections::HashMap;
use std::hash::{BuildHasher, Hash};
use vstd::prelude::*;
use vstd::std_specs::hash::{builds_valid_hashers, obeys_key_model, spec_hash_map_iter};
use vstd::std_specs::iter::IteratorSpec;

verus! {

/// A container whose stored values can be looked up by index and enumerated
/// together with their indices.
pub trait SuperIndex<Idx> {
    type Item;

    /// Whether `i` is the index of a stored value.
    spec fn has_index(&self, i: Idx) -> bool;

    /// The value stored at index `i`.
    spec fn value_at(&self, i: Idx) -> Self::Item;

    /// Number of stored values.
    spec fn size(&self) -> nat;

    /// Whether the container's operations behave as its model states; for a
    /// hashed container, whether its keys and hasher do.
    spec fn behaves(&self) -> bool;

    /// Whether the indices `s` come in an order that this container enumerates them in.
    spec fn enumeration_order(&self, s: Seq<Idx>) -> bool;

    /// The value at index `i`, or `None` where no value is stored at `i`.
    fn lookup(&self, i: Idx) -> (r: Option<&Self::Item>)
        requires
            self.behaves(),
        ensures
            r is Some <==> self.has_index(i),
            r matches Some(v) ==> *v == self.value_at(i),
    ;

    /// Lists every (index, value) pair exactly once.
    fn enumerate(&self) -> (r: Vec<(Idx, &Self::Item)>)
        requires
            self.behaves(),
        ensures
            self.enumeration_order(indices_of(r@)),
            r@.len() == self.size(),
            indices_of(r@).no_duplicates(),
            forall|k: int| 0 <= k < r@.len() ==> self.has_index(#[trigger] r@[k].0),
            forall|i: Idx| #[trigger] self.has_index(i) ==> indices_of(r@).contains(i),
            forall|k: int| 0 <= k < r@.len() ==> *(#[trigger] r@[k]).1 == self.value_at(r@[k].0),
    ;
}

/// The indices of a sequence of (index, value) pairs.
pub open spec fn indices_of<Idx, V>(s: Seq<(Idx, V)>) -> Seq<Idx> {
    s.map_values(|p: (Idx, V)| p.0)
}

/// `s` lists each index of `c` exactly once, in an order that `c` enumerates them in.
pub open spec fn enumerates<Idx, C: SuperIndex<Idx> + ?Sized>(c: &C, s: Seq<Idx>) -> bool {
    &&& c.enumeration_order(s)
    &&& s.len() == c.size()
    &&& s.no_duplicates()
    &&& forall|k: int| 0 <= k < s.len() ==> c.has_index(#[trigger] s[k])
    &&& forall|i: Idx| #[trigger] c.has_index(i) ==> s.contains(i)
}

/// Positions `0..len` in ascending order.
impl<T> SuperIndex<usize> for Vec<T> {
    type Item = T;

    open spec fn has_index(&self, i: usize) -> bool {
        i < self@.len()
    }

    open spec fn value_at(&self, i: usize) -> T {
        self@[i as int]
    }

    open spec fn size(&self) -> nat {
        self@.len()
    }

    open spec fn behaves(&self) -> bool {
        true
    }

    open spec fn enumeration_order(&self, s: Seq<usize>) -> bool {
        forall|k: int| 0 <= k < s.len() ==> #[trigger] s[k] == k
    }

    fn lookup(&self, i: usize) -> (r: Option<&T>) {
        if i < self.len() {
            Some(&self[i])
        } else {
            None
        }
    }

    fn enumerate(&self) -> (r: Vec<(usize, &T)>) {
        let mut r: Vec<(usize, &T)> = Vec::new();
        let mut i: usize = 0;
        while i < self.len()
            invariant
                i <= self@.len(),
                r@.len() == i,
                forall|k: int| 0 <= k < i ==> #[trigger] r@[k].0 == k && *r@[k].1 == self@[k],
            decreases self@.len() - i,
        {
            r.push((i, &self[i]));
            i = i + 1;
        }
        let ghost s = indices_of(r@);
        proof {
            assert forall|k: int| 0 <= k < s.len() implies #[trigger] s[k] == k by {
                assert(r@[k].0 == k);
            }
            assert forall|i: usize| self.has_index(i) implies s.contains(i) by {
                assert(s[i as int] == i);
            }
        }
        r
    }
}

broadcast use vstd::std_specs::hash::group_hash_axioms;

/// Keys in the map's own iteration order, which is left open.
impl<K: Copy + Eq + Hash, V, S: BuildHasher> SuperIndex<K> for HashMap<K, V, S> {
    type Item = V;

    open spec fn has_index(&self, i: K) -> bool {
        self@.contains_key(i)
    }

    open spec fn value_at(&self, i: K) -> V {
        self@[i]
    }

    open spec fn size(&self) -> nat {
        self@.len()
    }

    open spec fn behaves(&self) -> bool {
        obeys_key_model::<K>() && builds_valid_hashers::<S>()
    }

    open spec fn enumeration_order(&self, s: Seq<K>) -> bool {
        true
    }

    fn lookup(&self, i: K) -> (r: Option<&V>) {
        self.get(&i)
    }

    fn enumerate(&self) -> (r: Vec<(K, &V)>) {
        let mut r: Vec<(K, &V)> = Vec::new();
        let ghost v = spec_hash_map_iter(self).remaining();
        for kv in it: self.iter()
            invariant
                self.behaves(),
                it.seq() == v,
                r@.len() == it.index(),
                forall|k: int| 0 <= k < r@.len() ==> #[trigger] r@[k].0 == *v[k].0,
                forall|k: int| 0 <= k < r@.len() ==> #[trigger] r@[k].1 == v[k].1,
        {
            r.push((*kv.0, kv.1));
        }
        proof {
            assert(r@.len() == v.len());
            assert(v.no_duplicates());
            let s = indices_of(r@);
            assert forall|a: int, b: int| 0 <= a < b < s.len() implies s[a] != s[b] by {
                assert(self@.contains_key(*v[a].0) && self@[*v[a].0] == *v[a].1);
                assert(self@.contains_key(*v[b].0) && self@[*v[b].0] == *v[b].1);
                assert(v[a] != v[b]);
            }
            assert forall|i: K| #[trigger] self.has_index(i) implies s.contains(i) by {
                assert(v.contains((&i, &self@[i])));
                let k = v.index_of((&i, &self@[i]));
                assert(s[k] == i);
            }
        }
        r
    }
}

} // verus!
