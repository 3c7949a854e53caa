//! The join keys that right rows come to have while changes are read, without changing the rows.
use vstd::prelude::*;

use crate::diff::{all_leaves, atoms, MapDiff};
use crate::foreign_key::{right_key, RightJoinKey};
use crate::fx::{lookup, FxMap};
use crate::index::{empty_side, Side};
use crate::join_region::stage_runtime::names_join;
use crate::join_runtime::state::RelationIndex;
use crate::value::{models, CellValue, MapKey};

verus! {

/// The join keys of the rows that were read, over those that an index has. After a new beginning
/// the ones of the index no longer count.
#[verifier::reject_recursive_types(RK)]
#[verifier::reject_recursive_types(JK)]
pub struct KnownJoins<RK: MapKey, JK: MapKey> {
    read: FxMap<RK, Option<JK>>,
    anew: bool,
}

impl<RK: MapKey, JK: MapKey> KnownJoins<RK, JK> {
    /// The join key of a row, over the join keys of an index.
    pub closed spec fn join_of(
        &self,
        keys: Map<RK::Model, JK::Model>,
        key: RK::Model,
    ) -> Option<JK::Model> {
        if self.read@.contains_key(key) {
            self.read@[key]
        } else if self.anew {
            None
        } else {
            lookup(keys, key)
        }
    }

    /// What was read are the join keys of a side.
    pub open spec fn tells(&self, keys: Map<RK::Model, JK::Model>, now: Map<RK::Model, JK::Model>) -> bool {
        forall|key: RK::Model| #[trigger] self.join_of(keys, key) == lookup(now, key)
    }

    fn new() -> (known: KnownJoins<RK, JK>)
        ensures
            forall|keys: Map<RK::Model, JK::Model>| #[trigger] known.tells(keys, keys),
    {
        KnownJoins { read: FxMap::new(), anew: false }
    }

    fn begin_anew(&mut self)
        ensures
            forall|keys: Map<RK::Model, JK::Model>| #[trigger]
                final(self).tells(keys, Map::empty()),
    {
        self.read.clear();
        self.anew = true;
    }

    fn set(&mut self, key: RK, join_key: Option<JK>)
        ensures
            forall|keys: Map<RK::Model, JK::Model>, k: RK::Model| #[trigger]
                final(self).join_of(keys, k) == if k == key.model() {
                    join_key.model()
                } else {
                    old(self).join_of(keys, k)
                },
    {
        self.read.insert(key, join_key);
    }

    fn get<RV: CellValue>(&self, index: &RelationIndex<RK, RV, JK>, key: &RK) -> (join_key: Option<JK>)
        ensures
            join_key.model() == self.join_of(index@.keys, key.model()),
    {
        if let Some(join_key) = self.read.get(key) {
            return join_key.clone_value();
        }
        if self.anew {
            return None;
        }
        match index.join_key(key) {
            Some(join_key) => Some(join_key.clone_value()),
            None => None,
        }
    }
}

impl<RK: MapKey, RV: CellValue, JK: MapKey> RelationIndex<RK, RV, JK> {
    /// Whether each change of a diff names the join key that its row has by then.
    pub fn names_joins<FR: RightJoinKey<RK, RV, JK>>(
        &self,
        diff: &MapDiff<RK, RV>,
        right_join_key: &FR,
    ) -> (named: bool)
        requires
            right_join_key.lawful(),
        ensures
            named == forall|i: int|
                0 <= i < diff.steps().len() ==> names_join(
                    self@.run(diff.steps().take(i), right_key::<RK, RV, JK, FR>(*right_join_key)),
                    #[trigger] diff.steps()[i],
                    right_key::<RK, RV, JK, FR>(*right_join_key),
                ),
    {
        let ghost jk = right_key::<RK, RV, JK, FR>(*right_join_key);
        let ghost steps = diff.steps();
        let leaves = diff.leaves();
        let mut known: KnownJoins<RK, JK> = KnownJoins::new();
        let mut i: usize = 0;
        proof {
            assert(steps.take(0) =~= Seq::empty());
            assert(known.tells(self@.keys, self@.keys));
        }
        while i < leaves.len()
            invariant
                i <= leaves@.len(),
                all_leaves(leaves@),
                steps == diff.steps(),
                atoms(leaves@) == steps,
                jk == right_key::<RK, RV, JK, FR>(*right_join_key),
                right_join_key.lawful(),
                known.tells(self@.keys, self@.run(steps.take(i as int), jk).keys),
                forall|n: int|
                    0 <= n < i ==> names_join(
                        self@.run(steps.take(n), jk),
                        #[trigger] steps[n],
                        jk,
                    ),
            decreases leaves@.len() - i,
        {
            let ghost side = self@.run(steps.take(i as int), jk);
            let leaf = leaves[i];
            proof {
                assert(steps[i as int] == leaf.atom());
                assert(steps.take(i + 1).drop_last() =~= steps.take(i as int));
                assert(steps.take(i + 1).last() == steps[i as int]);
            }
            let named = self.names_next_join(&mut known, Ghost(side), leaf, right_join_key);
            if !named {
                assert(!names_join(self@.run(steps.take(i as int), jk), steps[i as int], jk));
                return false;
            }
            i += 1;
        }
        true
    }

    fn names_next_join<FR: RightJoinKey<RK, RV, JK>>(
        &self,
        known: &mut KnownJoins<RK, JK>,
        side: Ghost<Side<RK::Model, RV::Model, JK::Model>>,
        leaf: &MapDiff<RK, RV>,
        right_join_key: &FR,
    ) -> (named: bool)
        requires
            right_join_key.lawful(),
            !(leaf is Batch),
            old(known).tells(self@.keys, side@.keys),
        ensures
            named == names_join(
                side@,
                leaf.atom(),
                right_key::<RK, RV, JK, FR>(*right_join_key),
            ),
            final(known).tells(
                self@.keys,
                side@.step(leaf.atom(), right_key::<RK, RV, JK, FR>(*right_join_key)).keys,
            ),
    {
        let ghost jk = right_key::<RK, RV, JK, FR>(*right_join_key);
        match leaf {
            MapDiff::Initial { entries } => {
                known.begin_anew();
                let ghost all = models(entries@);
                let ghost empty = empty_side::<RK::Model, RV::Model, JK::Model>();
                let mut i: usize = 0;
                proof {
                    assert(all.take(0) =~= Seq::empty());
                    assert(known.tells(self@.keys, Map::empty()));
                }
                while i < entries.len()
                    invariant
                        i <= entries@.len(),
                        all == models(entries@),
                        jk == right_key::<RK, RV, JK, FR>(*right_join_key),
                        right_join_key.lawful(),
                        empty == empty_side::<RK::Model, RV::Model, JK::Model>(),
                        known.tells(self@.keys, empty.load(all.take(i as int), jk).keys),
                    decreases entries@.len() - i,
                {
                    let (key, value) = &entries[i];
                    proof {
                        assert(all.take(i + 1).drop_last() =~= all.take(i as int));
                        assert(all.take(i + 1).last() == (key.model(), value.model()));
                    }
                    let join_key = right_join_key.right_join_key(key, value);
                    known.set(key.clone_value(), join_key);
                    i += 1;
                }
                assert(all.take(i as int) =~= all);
                true
            },
            MapDiff::Insert { key, value } => {
                let had = known.get(self, key);
                let join_key = right_join_key.right_join_key(key, value);
                let named = had.is_none() || had.equals(&join_key);
                known.set(key.clone_value(), join_key);
                named
            },
            MapDiff::Update { key, old_value, new_value } => {
                let had = known.get(self, key);
                let old_join = right_join_key.right_join_key(key, old_value);
                let join_key = right_join_key.right_join_key(key, new_value);
                let named = had.is_none() || had.equals(&old_join) || had.equals(&join_key);
                known.set(key.clone_value(), join_key);
                named
            },
            MapDiff::Remove { key, old_value } => {
                let had = known.get(self, key);
                let old_join = right_join_key.right_join_key(key, old_value);
                let named = had.is_none() || had.equals(&old_join);
                known.set(key.clone_value(), None);
                named
            },
            MapDiff::Batch { .. } => true,
        }
    }
}

} // verus!
