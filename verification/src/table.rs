//! Ordered tables: from pairs of wire indices to wire indices, and from the
//! keys of components to their places.

use std::collections::BTreeMap;
use vstd::prelude::*;

verus! {

/// A finite map from pairs of indices to indices, kept in key order.
pub struct Table {
    entries: BTreeMap<(usize, usize), usize>,
}

impl View for Table {
    type V = Map<(usize, usize), usize>;

    closed spec fn view(&self) -> Map<(usize, usize), usize> {
        self.entries@
    }
}

impl Table {
    /// The table without entries.
    pub fn new() -> (t: Table)
        ensures
            t@ == Map::<(usize, usize), usize>::empty(),
    {
        Table { entries: BTreeMap::new() }
    }

    /// The entry under the key `(a, b)`, if there is one.
    pub fn get(&self, a: usize, b: usize) -> (r: Option<usize>)
        ensures
            r == (if self@.contains_key((a, b)) {
                Some(self@[(a, b)])
            } else {
                None
            }),
    {
        broadcast use vstd::laws_cmp::group_laws_cmp;
        broadcast use vstd::std_specs::btree::group_btree_axioms;

        let key = (a, b);
        match self.entries.get(&key) {
            Some(v) => Some(*v),
            None => None,
        }
    }

    /// Puts `v` under the key `(a, b)`, in place of what was there.
    pub fn insert(&mut self, a: usize, b: usize, v: usize)
        ensures
            final(self)@ == old(self)@.insert((a, b), v),
    {
        broadcast use vstd::laws_cmp::group_laws_cmp;
        broadcast use vstd::std_specs::btree::group_btree_axioms;

        self.entries.insert((a, b), v);
    }
}

/// A finite map from the keys of components to places, kept in key order.
#[derive(Debug, Clone)]
pub struct Places {
    entries: BTreeMap<(u64, usize), usize>,
}

impl View for Places {
    type V = Map<(u64, usize), usize>;

    closed spec fn view(&self) -> Map<(u64, usize), usize> {
        self.entries@
    }
}

impl Places {
    /// The map without entries.
    pub fn new() -> (t: Places)
        ensures
            t@ == Map::<(u64, usize), usize>::empty(),
    {
        Places { entries: BTreeMap::new() }
    }

    /// The place under the key `(id, inputs)`, if there is one.
    pub fn get(&self, id: u64, inputs: usize) -> (r: Option<usize>)
        ensures
            r == (if self@.contains_key((id, inputs)) {
                Some(self@[(id, inputs)])
            } else {
                None
            }),
    {
        broadcast use vstd::laws_cmp::group_laws_cmp;
        broadcast use vstd::std_specs::btree::group_btree_axioms;

        let key = (id, inputs);
        match self.entries.get(&key) {
            Some(v) => Some(*v),
            None => None,
        }
    }

    /// Puts the place `v` under the key `(id, inputs)`, in place of what
    /// was there.
    pub fn insert(&mut self, id: u64, inputs: usize, v: usize)
        ensures
            final(self)@ == old(self)@.insert((id, inputs), v),
    {
        broadcast use vstd::laws_cmp::group_laws_cmp;
        broadcast use vstd::std_specs::btree::group_btree_axioms;

        self.entries.insert((id, inputs), v);
    }
}

} // verus!
