//! The ordered tables of the manager: the snapshot of original index values
//! that restoring reads from, and the tables that lead from a panel of the
//! stage menu to a stage.

use std::collections::BTreeMap;
use vstd::prelude::*;
use crate::hash::Hash40;

verus! {

broadcast use {vstd::std_specs::btree::group_btree_axioms, vstd::laws_cmp::group_laws_cmp};

/// The original index value of each path hash, taken before any patch.
#[derive(Debug)]
pub struct BackupTable {
    pub entries: BTreeMap<u64, u32>,
}

impl View for BackupTable {
    type V = Map<u64, u32>;

    open spec fn view(&self) -> Map<u64, u32> {
        self.entries@
    }
}

impl BackupTable {
    /// A table without entries.
    pub fn new() -> (table: BackupTable)
        ensures
            table@ == Map::<u64, u32>::empty(),
    {
        BackupTable { entries: BTreeMap::new() }
    }

    /// Records `index` for `hash`, in place of an earlier value.
    pub fn insert(&mut self, hash: Hash40, index: u32)
        ensures
            final(self)@ == old(self)@.insert(hash.0, index),
    {
        let _ = self.entries.insert(hash.0, index);
    }

    /// The value recorded for `hash`.
    pub fn get(&self, hash: Hash40) -> (found: Option<u32>)
        ensures
            found == (if self@.contains_key(hash.0) {
                Some(self@[hash.0])
            } else {
                None
            }),
    {
        match self.entries.get(&hash.0) {
            Some(index) => Some(*index),
            None => None,
        }
    }
}

/// A table from a number, such as a panel's index or a hash, to a hash.
#[derive(Debug)]
pub struct HashTable {
    pub entries: BTreeMap<u64, u64>,
}

impl View for HashTable {
    type V = Map<u64, u64>;

    open spec fn view(&self) -> Map<u64, u64> {
        self.entries@
    }
}

impl HashTable {
    /// A table without entries.
    pub fn new() -> (table: HashTable)
        ensures
            table@ == Map::<u64, u64>::empty(),
    {
        HashTable { entries: BTreeMap::new() }
    }

    /// Records `hash` for `key`, in place of an earlier value.
    pub fn insert(&mut self, key: u64, hash: Hash40)
        ensures
            final(self)@ == old(self)@.insert(key, hash.0),
    {
        let _ = self.entries.insert(key, hash.0);
    }

    /// The hash recorded for `key`.
    pub fn get(&self, key: u64) -> (found: Option<Hash40>)
        ensures
            found == (if self@.contains_key(key) {
                Some(Hash40(self@[key]))
            } else {
                None
            }),
    {
        match self.entries.get(&key) {
            Some(hash) => Some(Hash40(*hash)),
            None => None,
        }
    }
}

} // verus!
