//! What a runtime holds for each row, in a table from the `dashmap` crate.
use dashmap::DashMap;
use std::collections::hash_map::RandomState;
use vstd::prelude::*;

use crate::fx::{lists, lookup, TableKey};
use crate::value::{models, MapKey};

verus! {

/// A concurrent hash map.
#[verifier::external_type_specification]
#[verifier::external_body]
#[verifier::reject_recursive_types(K)]
#[verifier::reject_recursive_types(V)]
#[verifier::reject_recursive_types(S)]
pub struct ExDashMap<K, V, S>(dashmap::DashMap<K, V, S>);

/// One guard for each of several keys. Dropping a guard ends what it stands for.
#[verifier::reject_recursive_types(K)]
#[verifier::reject_recursive_types(G)]
pub struct GuardTable<K: MapKey, G> {
    table: DashMap<TableKey<K>, G, RandomState>,
    contents: Ghost<Map<K::Model, G>>,
}

impl<K: MapKey, G> View for GuardTable<K, G> {
    type V = Map<K::Model, G>;

    closed spec fn view(&self) -> Map<K::Model, G> {
        self.contents@
    }
}

impl<K: MapKey, G> GuardTable<K, G> {
    /// `DashMap::new`: the new table is empty.
    #[verifier::external_body]
    pub(crate) fn new() -> (guards: GuardTable<K, G>)
        ensures
            (guards@ == Map::<K::Model, G>::empty()),
    {
        GuardTable { table: DashMap::new(), contents: Ghost(Map::empty()) }
    }

    /// `DashMap::insert`: the key then has the guard; the one that it had before comes back.
    #[verifier::external_body]
    pub(crate) fn insert(&mut self, key: K, guard: G) -> (before: Option<G>)
        ensures
            final(self)@ == old(self)@.insert(key.model(), guard),
            before == lookup(old(self)@, key.model()),
    {
        self.table.insert(TableKey(key), guard)
    }

    /// `DashMap::remove`: the key then has no guard; the one that it had before comes back.
    #[verifier::external_body]
    pub(crate) fn remove(&mut self, key: &K) -> (before: Option<G>)
        ensures
            final(self)@ == old(self)@.remove(key.model()),
            before == lookup(old(self)@, key.model()),
    {
        self.table.remove(&TableKey(key.clone_value())).map(|entry| entry.1)
    }

    /// `DashMap::iter`: each key that has a guard once, in an order that nothing is said of.
    #[verifier::external_body]
    pub(crate) fn keys(&self) -> (keys: Vec<K>)
        ensures
            lists(models(keys@), self@.dom()),
    {
        self.table.iter().map(|entry| entry.key().0.clone_value()).collect()
    }
}

} // verus!
