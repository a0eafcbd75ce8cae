//! Values kept by a sixteen-bit index and walked in index order.

use std::collections::BTreeMap;
use vstd::prelude::*;

verus! {

broadcast use {vstd::std_specs::btree::group_btree_axioms, vstd::laws_cmp::group_laws_cmp};

/// A map from indices to values.
pub struct Indexed<V> {
    map: BTreeMap<u16, V>,
}

impl<V> View for Indexed<V> {
    type V = Map<u16, V>;

    closed spec fn view(&self) -> Map<u16, V> {
        self.map@
    }
}

impl<V> Indexed<V> {
    pub fn new() -> (indexed: Self)
        ensures
            indexed@ == Map::<u16, V>::empty(),
    {
        Indexed { map: BTreeMap::new() }
    }

    /// Only finitely many indices hold a value.
    pub proof fn lemma_finite(&self)
        ensures
            self@.dom().finite(),
    {
    }

    pub fn len(&self) -> (len: usize)
        ensures
            len == self@.len(),
    {
        self.map.len()
    }

    pub fn contains(&self, index: u16) -> (held: bool)
        ensures
            held == self@.contains_key(index),
    {
        self.map.contains_key(&index)
    }

    pub fn get(&self, index: u16) -> (value: Option<&V>)
        ensures
            match value {
                Some(value) => self@.contains_key(index) && *value == self@[index],
                None => !self@.contains_key(index),
            },
    {
        self.map.get(&index)
    }

    pub fn insert(&mut self, index: u16, value: V)
        ensures
            final(self)@ == old(self)@.insert(index, value),
    {
        self.map.insert(index, value);
    }

    /// The indices that hold a value, in ascending order.
    pub fn indices(&self) -> (indices: Vec<u16>)
        ensures
            forall|i: int, j: int| 0 <= i < j < indices@.len() ==> indices@[i] < indices@[j],
            forall|k: u16| indices@.contains(k) <==> self@.contains_key(k),
    {
        let mut indices: Vec<u16> = Vec::new();
        let entries = self.map.iter();
        let ghost listed = vstd::std_specs::iter::IteratorSpec::remaining(&entries);
        let ghost order = listed.map_values(|entry: (&u16, &V)| *entry.0);
        assert(vstd::std_specs::btree::increasing_seq(order));
        for entry in it: entries
            invariant
                it.seq() == listed,
                indices@.len() == it.index(),
                forall|i: int| 0 <= i < indices@.len() ==> indices@[i] == *listed[i].0,
        {
            indices.push(*entry.0);
        }
        proof {
            assert(indices@ =~= order);
            assert forall|k: u16| indices@.contains(k) <==> self@.contains_key(k) by {
                if self@.contains_key(k) {
                    assert(listed.contains((&k, &self.map@[k])));
                    let i = choose|i: int| 0 <= i < listed.len() && listed[i] == (&k, &self.map@[k]);
                    assert(indices@[i] == k);
                }
                if indices@.contains(k) {
                    let i = choose|i: int| 0 <= i < indices@.len() && indices@[i] == k;
                    assert(self.map@.contains_key(*listed[i].0));
                }
            }
            assert forall|i: int, j: int| 0 <= i < j < indices@.len() implies indices@[i]
                < indices@[j] by {
                assert(vstd::std_specs::cmp::OrdSpec::cmp_spec(&order[i], &order[j]) is Less);
            }
        }
        indices
    }
}

} // verus!
