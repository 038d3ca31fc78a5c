//! A map from page identifiers to values.

use std::collections::BTreeMap;
use vstd::prelude::*;

verus! {

broadcast use vstd::std_specs::btree::group_btree_axioms;

/// A map keyed by `usize`, ordered by key.
pub struct IdMap<V> {
    map: BTreeMap<usize, V>,
}

impl<V> View for IdMap<V> {
    type V = Map<usize, V>;

    closed spec fn view(&self) -> Map<usize, V> {
        self.map@
    }
}

/// `keys` lists the domain of `m` in increasing order.
pub open spec fn lists_keys<V>(keys: Seq<usize>, m: Map<usize, V>) -> bool {
    &&& forall|i: int, j: int| 0 <= i < j < keys.len() ==> keys[i] < keys[j]
    &&& forall|k: usize| #[trigger] keys.contains(k) <==> m.contains_key(k)
}

impl<V> IdMap<V> {
    pub fn new() -> (r: Self)
        ensures
            r@ == Map::<usize, V>::empty(),
    {
        IdMap { map: BTreeMap::new() }
    }

    pub fn get(&self, k: usize) -> (r: Option<&V>)
        ensures
            match r {
                Some(v) => self@.contains_key(k) && *v == self@[k],
                None => !self@.contains_key(k),
            },
    {
        self.map.get(&k)
    }

    pub fn insert(&mut self, k: usize, v: V)
        ensures
            final(self)@ == old(self)@.insert(k, v),
    {
        self.map.insert(k, v);
    }

    pub fn remove(&mut self, k: usize) -> (r: Option<V>)
        ensures
            final(self)@ == old(self)@.remove(k),
            match r {
                Some(v) => old(self)@.contains_key(k) && v == old(self)@[k],
                None => !old(self)@.contains_key(k),
            },
    {
        self.map.remove(&k)
    }

    pub fn keys(&self) -> (r: Vec<usize>)
        ensures
            lists_keys(r@, self@),
    {
        let mut out: Vec<usize> = Vec::new();
        let ghost pairs = vstd::std_specs::iter::IteratorSpec::remaining(&self.map.iter());
        let ghost listed = pairs.map_values(|kv: (&usize, &V)| *kv.0);
        for kv in it: self.map.iter()
            invariant
                it.seq() == pairs,
                listed == pairs.map_values(|kv: (&usize, &V)| *kv.0),
                out@ =~= listed.take(it.index()),
        {
            out.push(*kv.0);
        }
        assert(out@ =~= listed);
        proof {
            assert(vstd::std_specs::btree::increasing_seq(listed));
            assert forall|i: int, j: int| 0 <= i < j < out@.len() implies out@[i] < out@[j] by {
                assert(vstd::std_specs::cmp::OrdSpec::cmp_spec(&listed[i], &listed[j]) is Less);
            }
            assert forall|k: usize| out@.contains(k) implies self@.contains_key(k) by {
                let i = out@.index_of(k);
                assert(self.map@.contains_key(*pairs[i].0));
            }
            assert forall|k: usize| self@.contains_key(k) implies out@.contains(k) by {
                assert(pairs.contains((&k, &self.map@[k])));
                let i = pairs.index_of((&k, &self.map@[k]));
                assert(listed[i] == k);
            }
        }
        out
    }
}

} // verus!
