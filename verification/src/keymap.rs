//! From a caller's key to the slots that hold its vectors.

use std::collections::HashMap;

use vstd::prelude::*;

verus! {

broadcast use vstd::std_specs::hash::group_hash_axioms;

/// The slots of each key, in the order in which they were added.
pub struct KeyMap {
    slots: HashMap<u64, Vec<usize>>,
}

impl KeyMap {
    /// The slots of a key; empty where it has none.
    pub closed spec fn list(&self, key: u64) -> Seq<usize> {
        if self.slots@.contains_key(key) {
            self.slots@[key]@
        } else {
            Seq::empty()
        }
    }

    /// Every key that is present has a slot.
    pub closed spec fn wf(&self) -> bool {
        forall|key: u64| #[trigger]
            self.slots@.contains_key(key) ==> self.slots@[key]@.len() > 0
    }

    /// A map without keys.
    pub fn new() -> (r: Self)
        ensures
            r.wf(),
            forall|key: u64| #[trigger] r.list(key) == Seq::<usize>::empty(),
    {
        KeyMap { slots: HashMap::new() }
    }

    /// Whether a key has a slot.
    pub fn contains(&self, key: u64) -> (r: bool)
        requires
            self.wf(),
        ensures
            r == (self.list(key).len() > 0),
    {
        self.slots.contains_key(&key)
    }

    /// The first slot of a key.
    pub fn first(&self, key: u64) -> (r: Option<usize>)
        requires
            self.wf(),
        ensures
            r == if self.list(key).len() > 0 {
                Some(self.list(key)[0])
            } else {
                None
            },
    {
        match self.slots.get(&key) {
            Some(list) => Some(list[0]),
            None => None,
        }
    }

    /// Add a slot to a key.
    pub fn add_slot(&mut self, key: u64, slot: usize)
        requires
            old(self).wf(),
        ensures
            final(self).wf(),
            final(self).list(key) == old(self).list(key).push(slot),
            forall|other: u64|
                other != key ==> #[trigger] final(self).list(other) == old(self).list(other),
    {
        let mut list: Vec<usize> = match self.slots.remove(&key) {
            Some(list) => list,
            None => Vec::new(),
        };
        list.push(slot);
        self.slots.insert(key, list);
    }

    /// Take all slots of a key out.
    pub fn take(&mut self, key: u64) -> (r: Vec<usize>)
        requires
            old(self).wf(),
        ensures
            final(self).wf(),
            r@ == old(self).list(key),
            final(self).list(key) == Seq::<usize>::empty(),
            forall|other: u64|
                other != key ==> #[trigger] final(self).list(other) == old(self).list(other),
    {
        match self.slots.remove(&key) {
            Some(list) => list,
            None => Vec::new(),
        }
    }
}

} // verus!
