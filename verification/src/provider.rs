//! The inverse index: one set of point ids per label.
use std::collections::HashMap;

use roaring::RoaringTreemap;
use vstd::prelude::*;

use crate::treemap::ids_of;

verus! {

broadcast use vstd::std_specs::hash::group_hash_axioms;

/// Sets of 64-bit ids, each filed under a 64-bit key.
pub struct RoaringTreemapSetProvider {
    sets: HashMap<u64, RoaringTreemap>,
}

/// A provider is seen as a total map: a key without a treemap has the empty set.
impl View for RoaringTreemapSetProvider {
    type V = Map<u64, Set<u64>>;

    closed spec fn view(&self) -> Map<u64, Set<u64>> {
        Map::new(
            |key: u64| true,
            |key: u64|
                if self.sets@.contains_key(key) {
                    ids_of(self.sets@[key])
                } else {
                    Set::empty()
                },
        )
    }
}

/// The contents of a provider that files nothing.
pub open spec fn no_sets() -> Map<u64, Set<u64>> {
    Map::new(|key: u64| true, |key: u64| Set::<u64>::empty())
}

impl RoaringTreemapSetProvider {
    pub proof fn lemma_total(&self)
        ensures
            forall|key: u64| #[trigger] self@.contains_key(key),
    {
    }

    pub fn new() -> (provider: Self)
        ensures
            provider@ == no_sets(),
    {
        let provider = RoaringTreemapSetProvider { sets: HashMap::new() };
        assert(provider@ =~= no_sets());
        provider
    }

    /// The treemap under `key`, if one was ever filed there.
    pub fn get(&self, key: u64) -> (set: Option<&RoaringTreemap>)
        ensures
            match set {
                Some(t) => ids_of(*t) == self@[key],
                None => self@[key] == Set::<u64>::empty(),
            },
    {
        self.sets.get(&key)
    }

    /// Adds `id` to the set under `key` and says whether it was absent before.
    pub fn insert(&mut self, key: u64, id: u64) -> (added: bool)
        ensures
            final(self)@ == old(self)@.insert(key, old(self)@[key].insert(id)),
            added == !old(self)@[key].contains(id),
    {
        let mut set = match self.sets.remove(&key) {
            Some(set) => set,
            None => RoaringTreemap::new(),
        };
        let added = set.insert(id);
        self.sets.insert(key, set);
        assert(self@ =~= old(self)@.insert(key, old(self)@[key].insert(id)));
        added
    }

    /// Takes `id` out of the set under `key` and says whether it was present before.
    pub fn delete_from_set(&mut self, key: u64, id: u64) -> (removed: bool)
        ensures
            final(self)@ == old(self)@.insert(key, old(self)@[key].remove(id)),
            removed == old(self)@[key].contains(id),
    {
        match self.sets.remove(&key) {
            Some(mut set) => {
                let removed = set.remove(id);
                self.sets.insert(key, set);
                assert(self@ =~= old(self)@.insert(key, old(self)@[key].remove(id)));
                removed
            },
            None => {
                assert(Set::<u64>::empty().remove(id) =~= Set::<u64>::empty());
                assert(self@ =~= old(self)@.insert(key, old(self)@[key].remove(id)));
                false
            },
        }
    }

    /// Files `set` under `key`, in place of what was there.
    pub fn install_for_key(&mut self, key: u64, set: RoaringTreemap)
        ensures
            final(self)@ == old(self)@.insert(key, ids_of(set)),
    {
        self.sets.insert(key, set);
        assert(self@ =~= old(self)@.insert(key, ids_of(set)));
    }
}

} // verus!
