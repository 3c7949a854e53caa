//! A join that keeps the rows of both sides and its own output.
use vstd::prelude::*;

use crate::delta::{
    commit_change, commit_keyed_value, delta, delta_replays, delta_settles, delta_skips, differing,
    put, put_all, put_all_covers, put_all_lookup,
};
use crate::diff::{all_leaves, atoms, fits_all, flat, replay, saturated, steps_of, Change, MapDiff};
use crate::foreign_key::{right_key, RightJoinKey};
use crate::func::{call2, image2, pure2, RowFn};
use crate::fx::{lookup, FxMap};
use crate::index::{empty_side, entry_keys, total_key, without, without_contains, KeyedIndex, Side};
use crate::join_region::declaration::{projection, StageProject};
use crate::ordered_set::{extend_new, extend_new_concat, kept, kept_contains, push_new, OrderedSet};
use crate::parallel::{par_map, WorkerPool};
use crate::value::{models, models_push, CellValue, MapKey};

verus! {

/// The work from which a join computes its rows on the worker pool.
pub const PARALLEL_JOIN_WORK_ENTER: usize = 65_536;

/// The work below which a join stops computing its rows on the worker pool.
pub const PARALLEL_JOIN_WORK_EXIT: usize = 49_152;

/// The rows of each join key, in order.
pub open spec fn grouped_of<K, V, J>(side: Side<K, V, J>) -> Map<J, Seq<(K, V)>> {
    Map::new(|j: J| side.members.contains_key(j), |j: J| side.matches_of(j))
}

/// Rows without those of a key.
pub open spec fn pairs_without<K, V>(s: Seq<(K, V)>, k: K) -> Seq<(K, V)>
    decreases s.len(),
{
    if s.len() == 0 {
        Seq::empty()
    } else if s.last().0 == k {
        pairs_without(s.drop_last(), k)
    } else {
        pairs_without(s.drop_last(), k).push(s.last())
    }
}

/// Rows with the value of a key replaced in place, or put at the end where the key is new.
pub open spec fn pairs_set<K, V>(s: Seq<(K, V)>, k: K, v: V) -> Seq<(K, V)> {
    if entry_keys(s).contains(k) {
        s.map_values(|e: (K, V)| if e.0 == k { (k, v) } else { e })
    } else {
        s.push((k, v))
    }
}

proof fn pairs_without_keys<K, V>(ks: Seq<K>, rows: Map<K, V>, k: K)
    ensures
        pairs_without(ks.map_values(|x: K| (x, rows[x])), k) == without(ks, k).map_values(
            |x: K| (x, rows[x]),
        ),
    decreases ks.len(),
{
    let f = |x: K| (x, rows[x]);
    if ks.len() > 0 {
        pairs_without_keys(ks.drop_last(), rows, k);
        assert(ks.map_values(f).drop_last() =~= ks.drop_last().map_values(f));
        if ks.last() != k {
            assert(without(ks, k).map_values(f) =~= without(ks.drop_last(), k).map_values(f).push(
                f(ks.last()),
            ));
        }
        assert(pairs_without(ks.map_values(f), k) =~= without(ks, k).map_values(f));
    } else {
        assert(pairs_without(ks.map_values(f), k) =~= without(ks, k).map_values(f));
    }
}

/// The rows of one side of a join, and for each join key the rows that have it, ready to hand out.
#[verifier::reject_recursive_types(RK)]
#[verifier::reject_recursive_types(RV)]
#[verifier::reject_recursive_types(JK)]
pub struct RelationIndex<RK: MapKey, RV: CellValue, JK: MapKey> {
    index: KeyedIndex<RK, RV, JK>,
    grouped_rows: FxMap<JK, Vec<(RK, RV)>>,
}

impl<RK: MapKey, RV: CellValue, JK: MapKey> View for RelationIndex<RK, RV, JK> {
    type V = Side<RK::Model, RV::Model, JK::Model>;

    closed spec fn view(&self) -> Side<RK::Model, RV::Model, JK::Model> {
        self.index@
    }
}

fn remove_grouped_row<RK: MapKey, RV: CellValue, JK: MapKey>(
    grouped_rows: &mut FxMap<JK, Vec<(RK, RV)>>,
    join_key: &JK,
    row_key: &RK,
)
    ensures
        final(grouped_rows)@ == if old(grouped_rows)@.contains_key(join_key.model()) {
            let rest = pairs_without(old(grouped_rows)@[join_key.model()], row_key.model());
            if rest.len() == 0 {
                old(grouped_rows)@.remove(join_key.model())
            } else {
                old(grouped_rows)@.insert(join_key.model(), rest)
            }
        } else {
            old(grouped_rows)@
        },
{
    match grouped_rows.remove(join_key) {
        Some(mut list) => {
            let ghost all = models(list@);
            let ghost k = row_key.model();
            let ghost mut n: int = 0;
            let mut i: usize = 0;
            proof {
                assert(all.take(0) =~= Seq::empty());
                assert(models(list@) =~= pairs_without(all.take(0), k) + all.skip(0));
            }
            while i < list.len()
                invariant
                    k == row_key.model(),
                    0 <= n <= all.len(),
                    i == pairs_without(all.take(n), k).len(),
                    models(list@) == pairs_without(all.take(n), k) + all.skip(n),
                    list@.len() == i + all.len() - n,
                decreases all.len() - n,
            {
                let ghost kept = pairs_without(all.take(n), k);
                proof {
                    assert(all.take(n + 1).drop_last() =~= all.take(n));
                    assert(all.take(n + 1).last() == all[n]);
                    assert(models(list@)[i as int] == all[n]);
                }
                if list[i].0.equals(row_key) {
                    proof {
                        assert(models(list@.remove(i as int)) =~= models(list@).remove(i as int));
                        assert((kept + all.skip(n)).remove(i as int) =~= kept + all.skip(n + 1));
                    }
                    list.remove(i);
                } else {
                    proof {
                        assert(kept + all.skip(n) =~= kept.push(all[n]) + all.skip(n + 1));
                    }
                    i += 1;
                }
                proof {
                    n = n + 1;
                }
            }
            proof {
                assert(all.take(n) =~= all);
                assert(models(list@) =~= pairs_without(all, k));
                assert(models(list@).len() == list@.len());
            }
            if list.len() > 0 {
                grouped_rows.insert(join_key.clone_value(), list);
                assert(grouped_rows@ =~= old(grouped_rows)@.insert(
                    join_key.model(),
                    pairs_without(all, k),
                ));
            }
        },
        None => {
            assert(grouped_rows@ =~= old(grouped_rows)@);
        },
    }
}

fn upsert_grouped_row<RK: MapKey, RV: CellValue, JK: MapKey>(
    grouped_rows: &mut FxMap<JK, Vec<(RK, RV)>>,
    join_key: JK,
    row_key: RK,
    row_value: RV,
)
    requires
        old(grouped_rows)@.contains_key(join_key.model()) ==> entry_keys(
            old(grouped_rows)@[join_key.model()],
        ).no_duplicates(),
    ensures
        final(grouped_rows)@ == old(grouped_rows)@.insert(
            join_key.model(),
            pairs_set(
                if old(grouped_rows)@.contains_key(join_key.model()) {
                    old(grouped_rows)@[join_key.model()]
                } else {
                    Seq::empty()
                },
                row_key.model(),
                row_value.model(),
            ),
        ),
{
    let mut list: Vec<(RK, RV)> = match grouped_rows.remove(&join_key) {
        Some(list) => list,
        None => Vec::new(),
    };
    let ghost all = models(list@);
    let ghost k = row_key.model();
    let ghost v = row_value.model();
    proof {
        if !old(grouped_rows)@.contains_key(join_key.model()) {
            assert(all =~= Seq::empty());
            assert(entry_keys(all) =~= Seq::empty());
        }
        assert(entry_keys(all).no_duplicates());
    }
    let mut i: usize = 0;
    while i < list.len() && !list[i].0.equals(&row_key)
        invariant
            i <= list@.len(),
            all == models(list@),
            k == row_key.model(),
            forall|n: int| 0 <= n < i ==> #[trigger] entry_keys(all)[n] != k,
        decreases list@.len() - i,
    {
        assert(entry_keys(all)[i as int] == list@[i as int].0.model());
        i += 1;
    }
    if i < list.len() {
        let entry = (row_key, row_value);
        proof {
            assert(entry_keys(all)[i as int] == k);
            assert forall|n: int| 0 <= n < all.len() && n != i implies all[n].0 != k by {
                assert(entry_keys(all)[n] != entry_keys(all)[i as int]);
            }
            assert(models(list@.update(i as int, entry)) =~= pairs_set(all, k, v));
        }
        list.set(i, entry);
    } else {
        proof {
            assert(!entry_keys(all).contains(k)) by {
                if entry_keys(all).contains(k) {
                    let n = choose|n: int| 0 <= n < entry_keys(all).len() && entry_keys(all)[n] == k;
                    assert(entry_keys(all)[n] != k);
                }
            }
            models_push(list@, (row_key, row_value));
        }
        list.push((row_key, row_value));
    }
    grouped_rows.insert(join_key, list);
    assert(grouped_rows@ =~= old(grouped_rows)@.insert(join_key.model(), pairs_set(all, k, v)));
}

impl<RK: MapKey, RV: CellValue, JK: MapKey> RelationIndex<RK, RV, JK> {
    /// The grouped rows are the rows of each join key.
    pub closed spec fn wf(&self) -> bool {
        &&& self.index@.wf()
        &&& self.grouped_rows@ == grouped_of(self.index@)
    }

    pub proof fn side_wf(&self)
        requires
            self.wf(),
        ensures
            self@.wf(),
    {
    }

    pub fn new() -> (index: RelationIndex<RK, RV, JK>)
        ensures
            index.wf(),
            index@ == empty_side::<RK::Model, RV::Model, JK::Model>(),
    {
        let index = RelationIndex { index: KeyedIndex::new(), grouped_rows: FxMap::new() };
        assert(index.grouped_rows@ =~= grouped_of(index.index@));
        index
    }

    /// The join key of a right row.
    pub fn join_key(&self, right_key: &RK) -> (join_key: Option<&JK>)
        ensures
            join_key is Some == self@.keys.contains_key(right_key.model()),
            join_key is Some ==> join_key->Some_0.model() == self@.keys[right_key.model()],
    {
        self.index.join_key(right_key)
    }

    pub fn clear(&mut self)
        ensures
            final(self).wf(),
            final(self)@ == empty_side::<RK::Model, RV::Model, JK::Model>(),
    {
        self.index.clear();
        self.grouped_rows.clear();
        assert(self.grouped_rows@ =~= grouped_of(self.index@));
    }

    /// The rows that have a join key, in order.
    pub fn rows_of(&self, join_key: &JK) -> (rows: Option<&Vec<(RK, RV)>>)
        requires
            self.wf(),
        ensures
            rows is Some == self@.members.contains_key(join_key.model()),
            rows is Some ==> models(rows->Some_0@) == self@.matches_of(join_key.model()),
    {
        self.grouped_rows.get(join_key)
    }

    /// The number of rows that have a join key.
    pub fn fanout(&self, join_key: &JK) -> (rows: usize)
        ensures
            rows == self@.members_of(join_key.model()).len(),
    {
        match self.index.members_of(join_key) {
            Some(members) => {
                assert(models(members@).len() == members@.len());
                members.len()
            },
            None => 0,
        }
    }

    /// Drops the row of a key, and names the join key that it had.
    pub fn remove_right(&mut self, right_key: &RK, changed_join_keys: &mut OrderedSet<JK>)
        requires
            old(self).wf(),
            old(changed_join_keys).wf(),
        ensures
            final(self).wf(),
            final(self)@ == old(self)@.dropped(right_key.model()),
            final(changed_join_keys).wf(),
            final(changed_join_keys)@ == extend_new(
                old(changed_join_keys)@,
                old(self)@.joins_of_set(right_key.model(), None),
            ),
    {
        let ghost k = right_key.model();
        let ghost side = self.index@;
        let ghost from = changed_join_keys@;
        let (previous, row) = self.index.remove(right_key);
        proof {
            side.dropped_effect(k, |a: RK::Model, b: RV::Model| None::<JK::Model>);
        }
        match previous {
            Some(previous_join_key) => {
                let ghost j = previous_join_key.model();
                remove_grouped_row(&mut self.grouped_rows, &previous_join_key, right_key);
                proof {
                    assert(side.joins_of_set(k, None) =~= seq![j]);
                    assert(seq![j].drop_last() =~= Seq::empty());
                    assert(extend_new(from, seq![j]) == push_new(extend_new(from, Seq::empty()), j));
                    assert(side.member(j, k));
                    removed_row_groups(side, k, j, self.index@);
                    assert(self.grouped_rows@ =~= grouped_of(self.index@)) by {
                        assert forall|i: JK::Model| i != j implies #[trigger] self.index@.matches_of(i)
                            == side.matches_of(i) by {}
                        side.detached_effect(k);
                    }
                }
                changed_join_keys.insert(previous_join_key);
            },
            None => {
                proof {
                    assert(side.joins_of_set(k, None) =~= Seq::empty());
                    assert(self.grouped_rows@ =~= grouped_of(self.index@)) by {
                        assert forall|i: JK::Model| #[trigger] self.index@.matches_of(i)
                            == side.matches_of(i) by {}
                    }
                }
            },
        }
    }

    /// Sets the row of a key under the join key that it has, if it has one, and names the join keys
    /// whose rows change.
    pub fn upsert_right(
        &mut self,
        right_key: RK,
        right_value: RV,
        join_key: Option<JK>,
        changed_join_keys: &mut OrderedSet<JK>,
    )
        requires
            old(self).wf(),
            old(changed_join_keys).wf(),
        ensures
            final(self).wf(),
            final(self)@ == old(self)@.set(
                right_key.model(),
                right_value.model(),
                join_key.model(),
            ),
            final(changed_join_keys).wf(),
            final(changed_join_keys)@ == extend_new(
                old(changed_join_keys)@,
                old(self)@.joins_of_set(right_key.model(), join_key.model()),
            ),
    {
        let ghost k = right_key.model();
        let ghost v = right_value.model();
        let ghost side = self.index@;
        let ghost from = changed_join_keys@;
        match join_key {
            None => {
                self.remove_right(&right_key, changed_join_keys);
            },
            Some(join_key) => {
                let ghost j = join_key.model();
                let ghost none = |a: RK::Model, b: RV::Model| None::<JK::Model>;
                proof {
                    side.set_effect(k, v, Some(j), none);
                    side.detached_effect(k);
                }
                let previous = self.index.set(
                    right_key.clone_value(),
                    right_value.clone_value(),
                    Some(join_key.clone_value()),
                );
                let ghost after = self.index@;
                let ghost had = lookup(side.keys, k);
                match previous {
                    Some(previous_join_key) => {
                        if !previous_join_key.equals(&join_key) {
                            remove_grouped_row(
                                &mut self.grouped_rows,
                                &previous_join_key,
                                &right_key,
                            );
                            proof {
                                let p = previous_join_key.model();
                                assert(side.member(p, k));
                                removed_row_groups(side, k, p, after);
                                assert(side.joins_of_set(k, Some(j)) =~= seq![p, j]);
                                assert(seq![p, j].drop_last() =~= seq![p]);
                                assert(seq![p].drop_last() =~= Seq::empty());
                                assert(extend_new(from, seq![p]) == push_new(
                                    extend_new(from, Seq::empty()),
                                    p,
                                ));
                                assert(extend_new(from, seq![p, j]) == push_new(
                                    extend_new(from, seq![p]),
                                    j,
                                ));
                            }
                            changed_join_keys.insert(previous_join_key);
                        } else {
                            proof {
                                assert(side.joins_of_set(k, Some(j)) =~= seq![j]);
                                assert(seq![j].drop_last() =~= Seq::empty());
                                assert(extend_new(from, seq![j]) == push_new(
                                    extend_new(from, Seq::empty()),
                                    j,
                                ));
                            }
                        }
                    },
                    None => {
                        proof {
                            assert(side.joins_of_set(k, Some(j)) =~= seq![j]);
                            assert(seq![j].drop_last() =~= Seq::empty());
                            assert(extend_new(from, seq![j]) == push_new(
                                extend_new(from, Seq::empty()),
                                j,
                            ));
                        }
                    },
                }
                let ghost mid = self.grouped_rows@;
                proof {
                    assert(mid.contains_key(j) == side.members.contains_key(j));
                    assert(mid.contains_key(j) ==> mid[j] == side.matches_of(j));
                    set_row_groups(side, k, v, j);
                }
                changed_join_keys.insert(join_key.clone_value());
                upsert_grouped_row(&mut self.grouped_rows, join_key, right_key, right_value);
                proof {
                    let groups = grouped_of(after);
                    assert forall|i: JK::Model| #[trigger] groups.contains_key(i)
                        == self.grouped_rows@.contains_key(i) && (groups.contains_key(i) ==> groups[i]
                        == self.grouped_rows@[i]) by {
                        if i != j && had != Some(i) {
                            let joins = side.joins_of_set(k, Some(j));
                            assert(!joins.contains(i));
                            assert(after.matches_of(i) == side.matches_of(i));
                            assert(after.members.contains_key(i) == side.members.contains_key(i)) by {
                                let _ = side.detached(k).contains_key(i);
                            }
                            assert(mid.contains_key(i) == side.members.contains_key(i));
                        } else if i != j {
                            assert(mid.contains_key(i) == after.members.contains_key(i));
                        }
                    }
                    assert(self.grouped_rows@.dom() =~= groups.dom());
                    assert(self.grouped_rows@ =~= groups);
                }
            },
        }
    }

    fn apply_one<FR: RightJoinKey<RK, RV, JK>>(
        &mut self,
        leaf: &MapDiff<RK, RV>,
        right_join_key: &FR,
        changed_join_keys: &mut OrderedSet<JK>,
    )
        requires
            right_join_key.lawful(),
            old(self).wf(),
            old(changed_join_keys).wf(),
            !(leaf is Batch),
        ensures
            final(self).wf(),
            final(self)@ == old(self)@.step(leaf.atom(), right_key::<RK, RV, JK, FR>(*right_join_key)),
            final(changed_join_keys).wf(),
            old(self)@.joins_step(
                leaf.atom(),
                right_key::<RK, RV, JK, FR>(*right_join_key),
                old(changed_join_keys)@,
                final(changed_join_keys)@,
            ),
    {
        let ghost jk = right_key::<RK, RV, JK, FR>(*right_join_key);
        match leaf {
            MapDiff::Initial { entries } => {
                let dropped = self.index.joins();
                changed_join_keys.extend(&dropped);
                self.clear();
                let ghost mid = changed_join_keys@;
                let ghost all = models(entries@);
                let ghost empty = empty_side::<RK::Model, RV::Model, JK::Model>();
                let mut i: usize = 0;
                assert(all.take(0) =~= Seq::empty());
                while i < entries.len()
                    invariant
                        i <= entries@.len(),
                        all == models(entries@),
                        jk == right_key::<RK, RV, JK, FR>(*right_join_key),
                        right_join_key.lawful(),
                        self.wf(),
                        changed_join_keys.wf(),
                        empty == empty_side::<RK::Model, RV::Model, JK::Model>(),
                        self@ == empty.load(all.take(i as int), jk),
                        changed_join_keys@ == empty.joins_load(all.take(i as int), jk, mid),
                    decreases entries@.len() - i,
                {
                    let (key, value) = &entries[i];
                    proof {
                        assert(all.take(i + 1).drop_last() =~= all.take(i as int));
                        assert(all.take(i + 1).last() == (key.model(), value.model()));
                    }
                    let join_key = right_join_key.right_join_key(key, value);
                    self.upsert_right(
                        key.clone_value(),
                        value.clone_value(),
                        join_key,
                        changed_join_keys,
                    );
                    i += 1;
                }
                proof {
                    assert(all.take(i as int) =~= all);
                    assert(old(self)@.lists_joins(models(dropped@)));
                }
            },
            MapDiff::Insert { key, value } => {
                let join_key = right_join_key.right_join_key(key, value);
                self.upsert_right(key.clone_value(), value.clone_value(), join_key, changed_join_keys);
            },
            MapDiff::Update { key, new_value, .. } => {
                let join_key = right_join_key.right_join_key(key, new_value);
                self.upsert_right(
                    key.clone_value(),
                    new_value.clone_value(),
                    join_key,
                    changed_join_keys,
                );
            },
            MapDiff::Remove { key, .. } => {
                self.remove_right(key, changed_join_keys);
            },
            MapDiff::Batch { .. } => {},
        }
    }

    /// Follows a diff, and names the join keys whose rows change.
    pub fn apply_diff<FR: RightJoinKey<RK, RV, JK>>(
        &mut self,
        diff: &MapDiff<RK, RV>,
        right_join_key: &FR,
        changed_join_keys: &mut OrderedSet<JK>,
    )
        requires
            right_join_key.lawful(),
            old(self).wf(),
            old(changed_join_keys).wf(),
        ensures
            final(self).wf(),
            final(self)@ == old(self)@.run(diff.steps(), right_key::<RK, RV, JK, FR>(*right_join_key)),
            final(changed_join_keys).wf(),
            old(self)@.joins_run(
                diff.steps(),
                right_key::<RK, RV, JK, FR>(*right_join_key),
                old(changed_join_keys)@,
                final(changed_join_keys)@,
            ),
    {
        let ghost jk = right_key::<RK, RV, JK, FR>(*right_join_key);
        let ghost steps = diff.steps();
        let leaves = diff.leaves();
        let mut i: usize = 0;
        assert(steps.take(0) =~= Seq::empty());
        while i < leaves.len()
            invariant
                i <= leaves@.len(),
                all_leaves(leaves@),
                steps == diff.steps(),
                atoms(leaves@) == steps,
                jk == right_key::<RK, RV, JK, FR>(*right_join_key),
                right_join_key.lawful(),
                self.wf(),
                changed_join_keys.wf(),
                self@ == old(self)@.run(steps.take(i as int), jk),
                old(self)@.joins_run(
                    steps.take(i as int),
                    jk,
                    old(changed_join_keys)@,
                    changed_join_keys@,
                ),
            decreases leaves@.len() - i,
        {
            let ghost mid = changed_join_keys@;
            let ghost side = self@;
            let leaf = leaves[i];
            self.apply_one(leaf, right_join_key, changed_join_keys);
            proof {
                assert(steps[i as int] == leaf.atom());
                assert(steps.take(i + 1).drop_last() =~= steps.take(i as int));
                assert(steps.take(i + 1).last() == steps[i as int]);
                assert(old(self)@.run(steps.take(i + 1).drop_last(), jk).joins_step(
                    steps.take(i + 1).last(),
                    jk,
                    mid,
                    changed_join_keys@,
                ));
            }
            i += 1;
        }
        assert(steps.take(i as int) =~= steps);
    }
}

/// The rows of the join key that a row leaves are the ones it had without that row.
proof fn removed_row_groups<K, V, J>(side: Side<K, V, J>, k: K, j: J, after: Side<K, V, J>)
    requires
        side.wf(),
        side.member(j, k),
        after.members.contains_key(j) == drop_member_at(side, j, k).contains_key(j),
        after.members[j] == drop_member_at(side, j, k)[j],
        forall|x: K| x != k ==> #[trigger] after.rows[x] == side.rows[x],
    ensures
        after.members.contains_key(j) == (pairs_without(side.matches_of(j), k).len() > 0),
        after.members.contains_key(j) ==> after.matches_of(j) == pairs_without(
            side.matches_of(j),
            k,
        ),
{
    let ks = side.members[j];
    without_contains(ks, k);
    pairs_without_keys(ks, side.rows, k);
    let rest = without(ks, k);
    assert(side.matches_of(j) =~= ks.map_values(|x: K| (x, side.rows[x])));
    assert(pairs_without(side.matches_of(j), k).len() == rest.len());
    if after.members.contains_key(j) {
        assert forall|i: int| 0 <= i < rest.len() implies rest[i] != k by {
            assert(rest.contains(rest[i]));
        }
        assert(after.matches_of(j) =~= rest.map_values(|x: K| (x, side.rows[x])));
    }
}

/// The members of each join key once a member has left one.
pub open spec fn drop_member_at<K, V, J>(side: Side<K, V, J>, j: J, k: K) -> Map<J, Seq<K>> {
    crate::index::drop_member(side.members, j, k)
}

/// The rows of the join key that a row is set under are the ones it had with that row set.
proof fn set_row_groups<K, V, J>(side: Side<K, V, J>, k: K, v: V, j: J)
    requires
        side.wf(),
    ensures
        entry_keys(side.matches_of(j)) =~= side.members_of(j),
        entry_keys(side.matches_of(j)).no_duplicates(),
        side.set(k, v, Some(j)).members.contains_key(j),
        side.set(k, v, Some(j)).matches_of(j) == pairs_set(side.matches_of(j), k, v),
{
    let after = side.set(k, v, Some(j));
    let pairs = side.matches_of(j);
    assert(entry_keys(pairs) =~= side.members_of(j));
    assert(side.member(j, k) == (side.keys.contains_key(k) && side.keys[k] == j));
    if lookup(side.keys, k) == Some(j) {
        assert(after.matches_of(j) =~= pairs_set(pairs, k, v));
    } else {
        side.detached_effect(k);
        assert(!side.members_of(j).contains(k)) by {
            if side.members_of(j).contains(k) {
                assert(side.member(j, k));
            }
        }
        assert forall|i: int| 0 <= i < side.members_of(j).len() implies side.members_of(j)[i] != k by {
            assert(side.members_of(j).contains(side.members_of(j)[i]));
        }
        assert(after.members_of(j) =~= side.members_of(j).push(k));
        assert(after.matches_of(j) =~= pairs_set(pairs, k, v));
    }
}

/// The output of a join: for each left row, what the projection makes of it and of the right rows
/// that have its join key.
pub open spec fn joined<LK, LV, RK, RV, JK, OV>(
    left: Side<LK, LV, JK>,
    right: Side<RK, RV, JK>,
    project: spec_fn(LK, LV, Seq<(RK, RV)>) -> Option<OV>,
) -> Map<LK, OV> {
    Map::new(
        |k: LK|
            left.rows.contains_key(k) && project(
                k,
                left.rows[k],
                right.matches_of(left.keys[k]),
            ) is Some,
        |k: LK| project(k, left.rows[k], right.matches_of(left.keys[k]))->Some_0,
    )
}

pub proof fn joined_lookup<LK, LV, RK, RV, JK, OV>(
    left: Side<LK, LV, JK>,
    right: Side<RK, RV, JK>,
    project: spec_fn(LK, LV, Seq<(RK, RV)>) -> Option<OV>,
    k: LK,
)
    ensures
        lookup(joined(left, right, project), k) == if left.rows.contains_key(k) {
            project(k, left.rows[k], right.matches_of(left.keys[k]))
        } else {
            None
        },
{
}

/// A touched left row is the only one whose output changes when left rows change.
pub proof fn joined_left_covers<LK, LV, RK, RV, JK, OV>(
    left: Side<LK, LV, JK>,
    right: Side<RK, RV, JK>,
    project: spec_fn(LK, LV, Seq<(RK, RV)>) -> Option<OV>,
    steps: Seq<Change<LK, LV>>,
    jk: spec_fn(LK, LV) -> Option<JK>,
    keys: Seq<LK>,
)
    requires
        left.wf(),
        left.keys_run(steps, jk, Seq::empty(), keys),
    ensures
        put_all(joined(left, right, project), keys, joined(left.run(steps, jk), right, project))
            == joined(left.run(steps, jk), right, project),
        keys.no_duplicates(),
{
    left.keys_run_effect(steps, jk, Seq::empty(), keys);
    left.run_effect(steps, jk);
    let after = left.run(steps, jk);
    let old_output = joined(left, right, project);
    let new_output = joined(after, right, project);
    assert forall|k: LK| !keys.contains(k) implies #[trigger] lookup(old_output, k) == lookup(
        new_output,
        k,
    ) by {
        assert(after.same_at(left, k));
        joined_lookup(left, right, project, k);
        joined_lookup(after, right, project, k);
    }
    put_all_covers(old_output, keys, new_output);
}

/// A left row with a changed join key is the only one whose output changes when right rows change.
pub proof fn joined_right_covers<LK, LV, RK, RV, JK, OV>(
    left: Side<LK, LV, JK>,
    right: Side<RK, RV, JK>,
    after: Side<RK, RV, JK>,
    project: spec_fn(LK, LV, Seq<(RK, RV)>) -> Option<OV>,
    joins: Seq<JK>,
)
    requires
        left.wf(),
        forall|j: JK|
            !joins.contains(j) ==> #[trigger] after.matches_of(j) == right.matches_of(j),
    ensures
        put_all(
            joined(left, right, project),
            left.extend_members(joins, Seq::empty()),
            joined(left, after, project),
        ) == joined(left, after, project),
        left.extend_members(joins, Seq::empty()).no_duplicates(),
{
    let keys = left.extend_members(joins, Seq::empty());
    left.extend_members_effect(joins, Seq::empty());
    let old_output = joined(left, right, project);
    let new_output = joined(left, after, project);
    assert forall|k: LK| !keys.contains(k) implies #[trigger] lookup(old_output, k) == lookup(
        new_output,
        k,
    ) by {
        joined_lookup(left, right, project, k);
        joined_lookup(left, after, project, k);
        if left.rows.contains_key(k) {
            assert(left.keys.contains_key(k));
            assert(!joins.contains(left.keys[k]));
            assert(after.matches_of(left.keys[k]) == right.matches_of(left.keys[k]));
        }
    }
    put_all_covers(old_output, keys, new_output);
}

/// The work of computing the output of left rows: one for each, and one for each right row that
/// matches it.
pub open spec fn join_work<LK, LV, RK, RV, JK>(
    left: Side<LK, LV, JK>,
    right: Side<RK, RV, JK>,
    keys: Seq<LK>,
) -> nat
    decreases keys.len(),
{
    if keys.len() == 0 {
        0
    } else {
        join_work(left, right, keys.drop_last()) + 1 + (if left.keys.contains_key(keys.last()) {
            right.members_of(left.keys[keys.last()]).len()
        } else {
            0
        })
    }
}

/// Whether a join computes on the worker pool, given whether it did and the work at hand.
pub open spec fn next_parallel(active: bool, work: usize) -> bool {
    if active {
        work >= PARALLEL_JOIN_WORK_EXIT
    } else {
        work >= PARALLEL_JOIN_WORK_ENTER
    }
}

/// What the output is to hold at a left key.
pub fn desired_value<
    LK: MapKey,
    LV: CellValue,
    RK: MapKey,
    RV: CellValue,
    JK: MapKey,
    OV: CellValue,
    P: StageProject<LK, LV, RK, RV, OV>,
>(
    left: &KeyedIndex<LK, LV, JK>,
    right: &RelationIndex<RK, RV, JK>,
    key: &LK,
    project: &P,
) -> (desired: Option<OV>)
    requires
        left@.wf(),
        right.wf(),
        project.lawful(),
    ensures
        desired.model() == lookup(
            joined(left@, right@, projection::<LK, LV, RK, RV, OV, P>(*project)),
            key.model(),
        ),
{
    match left.row(key) {
        Some(row) => {
            let empty: Vec<(RK, RV)> = Vec::new();
            let rows: &[(RK, RV)] = match left.join_key(key) {
                Some(join_key) => match right.rows_of(join_key) {
                    Some(rows) => rows.as_slice(),
                    None => {
                        assert(models(empty@) =~= right@.matches_of(join_key.model()));
                        empty.as_slice()
                    },
                },
                None => empty.as_slice(),
            };
            project.project(key, row, rows)
        },
        None => None,
    }
}

/// The estimated work of computing the output of left rows.
pub fn estimated_work<LK: MapKey, LV: CellValue, RK: MapKey, RV: CellValue, JK: MapKey>(
    left: &KeyedIndex<LK, LV, JK>,
    right: &RelationIndex<RK, RV, JK>,
    keys: &Vec<LK>,
) -> (work: usize)
    ensures
        work == saturated(join_work(left@, right@, models(keys@))),
{
    let mut work: usize = 0;
    let mut i: usize = 0;
    let ghost all = models(keys@);
    assert(all.take(0) =~= Seq::empty());
    while i < keys.len()
        invariant
            i <= keys@.len(),
            all == models(keys@),
            work == saturated(join_work(left@, right@, all.take(i as int))),
        decreases keys@.len() - i,
    {
        let fanout: usize = match left.join_key(&keys[i]) {
            Some(join_key) => right.fanout(join_key),
            None => 0,
        };
        proof {
            assert(all.take(i + 1).drop_last() =~= all.take(i as int));
            assert(all.take(i + 1).last() == keys@[i as int].model());
        }
        work = work.saturating_add(fanout.saturating_add(1));
        i += 1;
    }
    assert(all.take(i as int) =~= all);
    work
}

fn compute_keyed_parallel<
    LK: MapKey,
    LV: CellValue,
    RK: MapKey,
    RV: CellValue,
    JK: MapKey,
    OV: CellValue,
    P: StageProject<LK, LV, RK, RV, OV>,
>(
    pool: &WorkerPool,
    left: &KeyedIndex<LK, LV, JK>,
    right: &RelationIndex<RK, RV, JK>,
    impacted: &Vec<LK>,
    project: &P,
) -> (desired: Vec<Option<OV>>)
    requires
        left@.wf(),
        right.wf(),
        project.lawful(),
    ensures
        desired@.len() == impacted@.len(),
        forall|i: int|
            0 <= i < desired@.len() ==> (#[trigger] desired@[i]).model() == lookup(
                joined(left@, right@, projection::<LK, LV, RK, RV, OV, P>(*project)),
                impacted@[i].model(),
            ),
{
    let compute = |key: &LK| -> (desired: Option<OV>)
        requires
            left@.wf(),
            right.wf(),
            project.lawful(),
        ensures
            desired.model() == lookup(
                joined(left@, right@, projection::<LK, LV, RK, RV, OV, P>(*project)),
                key.model(),
            ),
        { desired_value(left, right, key, project) };
    par_map(&pool.pool, impacted, &compute)
}

/// Brings the kept output of touched left rows up to date, and tells the changes.
pub fn recompute_keyed_impacted<
    LK: MapKey,
    LV: CellValue,
    RK: MapKey,
    RV: CellValue,
    JK: MapKey,
    OV: CellValue,
    P: StageProject<LK, LV, RK, RV, OV>,
>(
    left: &KeyedIndex<LK, LV, JK>,
    right: &RelationIndex<RK, RV, JK>,
    output_cache: &mut FxMap<LK, OV>,
    parallel_active: &mut bool,
    impacted: &Vec<LK>,
    project: &P,
    pool: Option<&WorkerPool>,
) -> (changes: Vec<MapDiff<LK, OV>>)
    requires
        left@.wf(),
        right.wf(),
        project.lawful(),
    ensures
        final(output_cache)@ == put_all(
            old(output_cache)@,
            models(impacted@),
            joined(left@, right@, projection::<LK, LV, RK, RV, OV, P>(*project)),
        ),
        flat(changes@),
        steps_of(changes@) == delta(
            old(output_cache)@,
            models(impacted@),
            joined(left@, right@, projection::<LK, LV, RK, RV, OV, P>(*project)),
        ),
        *final(parallel_active) == next_parallel(
            *old(parallel_active),
            saturated(join_work(left@, right@, models(impacted@))),
        ),
{
    let ghost want = joined(left@, right@, projection::<LK, LV, RK, RV, OV, P>(*project));
    let ghost all = models(impacted@);
    let mut changes: Vec<MapDiff<LK, OV>> = Vec::new();
    let work = estimated_work(left, right, impacted);
    *parallel_active = if *parallel_active {
        work >= PARALLEL_JOIN_WORK_EXIT
    } else {
        work >= PARALLEL_JOIN_WORK_ENTER
    };
    let mut i: usize = 0;
    assert(all.take(0) =~= Seq::empty());
    if *parallel_active {
        if let Some(pool) = pool {
            let desired = compute_keyed_parallel(pool, left, right, impacted, project);
            while i < impacted.len()
                invariant
                    i <= impacted@.len(),
                    all == models(impacted@),
                    desired@.len() == impacted@.len(),
                    forall|n: int|
                        0 <= n < desired@.len() ==> (#[trigger] desired@[n]).model() == lookup(
                            want,
                            impacted@[n].model(),
                        ),
                    output_cache@ == put_all(old(output_cache)@, all.take(i as int), want),
                    flat(changes@),
                    steps_of(changes@) == delta(old(output_cache)@, all.take(i as int), want),
                decreases impacted@.len() - i,
            {
                proof {
                    assert(all.take(i + 1).drop_last() =~= all.take(i as int));
                    assert(all.take(i + 1).last() == impacted@[i as int].model());
                }
                commit_keyed_value(
                    output_cache,
                    impacted[i].clone_value(),
                    desired[i].clone_value(),
                    &mut changes,
                );
                i += 1;
            }
            assert(all.take(i as int) =~= all);
            return changes;
        }
    }
    while i < impacted.len()
        invariant
            i <= impacted@.len(),
            all == models(impacted@),
            left@.wf(),
            right.wf(),
            project.lawful(),
            want == joined(left@, right@, projection::<LK, LV, RK, RV, OV, P>(*project)),
            output_cache@ == put_all(old(output_cache)@, all.take(i as int), want),
            flat(changes@),
            steps_of(changes@) == delta(old(output_cache)@, all.take(i as int), want),
        decreases impacted@.len() - i,
    {
        proof {
            assert(all.take(i + 1).drop_last() =~= all.take(i as int));
            assert(all.take(i + 1).last() == impacted@[i as int].model());
        }
        let desired = desired_value(left, right, &impacted[i], project);
        commit_keyed_value(output_cache, impacted[i].clone_value(), desired, &mut changes);
        i += 1;
    }
    assert(all.take(i as int) =~= all);
    changes
}

/// The join keys that the right rows named in a diff have, put behind those of `from`.
pub open spec fn observed_joins<RK, RV, JK>(
    steps: Seq<Change<RK, RV>>,
    jk: spec_fn(RK, RV) -> Option<JK>,
    from: Seq<JK>,
) -> Seq<JK>
    decreases steps.len(),
{
    if steps.len() == 0 {
        from
    } else {
        extend_new(observed_joins(steps.drop_last(), jk, from), observed_step(steps.last(), jk))
    }
}

/// A join key, if there is one, as a sequence.
pub open spec fn join_seq<JK>(join: Option<JK>) -> Seq<JK> {
    match join {
        Some(j) => seq![j],
        None => Seq::empty(),
    }
}

/// The join keys of entries, in order.
pub open spec fn entry_joins<RK, RV, JK>(
    entries: Seq<(RK, RV)>,
    jk: spec_fn(RK, RV) -> Option<JK>,
) -> Seq<JK>
    decreases entries.len(),
{
    if entries.len() == 0 {
        Seq::empty()
    } else {
        entry_joins(entries.drop_last(), jk) + join_seq(jk(entries.last().0, entries.last().1))
    }
}

/// The join keys that the right rows named in one change have.
pub open spec fn observed_step<RK, RV, JK>(
    change: Change<RK, RV>,
    jk: spec_fn(RK, RV) -> Option<JK>,
) -> Seq<JK> {
    match change {
        Change::Initial { entries } => entry_joins(entries, jk),
        Change::Insert { key, value } => join_seq(jk(key, value)),
        Change::Remove { key, old_value } => join_seq(jk(key, old_value)),
        Change::Update { key, old_value, new_value } => join_seq(jk(key, old_value)) + join_seq(
            jk(key, new_value),
        ),
    }
}

fn insert_join<JK: MapKey>(join: Option<JK>, changed_join_keys: &mut OrderedSet<JK>)
    requires
        old(changed_join_keys).wf(),
    ensures
        final(changed_join_keys).wf(),
        final(changed_join_keys)@ == extend_new(old(changed_join_keys)@, join_seq(join.model())),
{
    match join {
        Some(join_key) => {
            proof {
                let j = join_key.model();
                assert(seq![j].drop_last() =~= Seq::empty());
                assert(extend_new(changed_join_keys@, seq![j]) == push_new(
                    extend_new(changed_join_keys@, Seq::empty()),
                    j,
                ));
            }
            changed_join_keys.insert(join_key);
        },
        None => {},
    }
}

/// Names the join keys that the right rows named in a diff have.
pub fn observe_joins<RK: MapKey, RV: CellValue, JK: MapKey, FR: RightJoinKey<RK, RV, JK>>(
    diff: &MapDiff<RK, RV>,
    right_join_key: &FR,
    changed_join_keys: &mut OrderedSet<JK>,
)
    requires
        right_join_key.lawful(),
        old(changed_join_keys).wf(),
    ensures
        final(changed_join_keys).wf(),
        final(changed_join_keys)@ == observed_joins(
            diff.steps(),
            right_key::<RK, RV, JK, FR>(*right_join_key),
            old(changed_join_keys)@,
        ),
{
    let ghost jk = right_key::<RK, RV, JK, FR>(*right_join_key);
    let ghost steps = diff.steps();
    let leaves = diff.leaves();
    let mut i: usize = 0;
    assert(steps.take(0) =~= Seq::empty());
    while i < leaves.len()
        invariant
            i <= leaves@.len(),
            all_leaves(leaves@),
            steps == diff.steps(),
            atoms(leaves@) == steps,
            jk == right_key::<RK, RV, JK, FR>(*right_join_key),
            right_join_key.lawful(),
            changed_join_keys.wf(),
            changed_join_keys@ == observed_joins(steps.take(i as int), jk, old(changed_join_keys)@),
        decreases leaves@.len() - i,
    {
        let ghost from = changed_join_keys@;
        let leaf = leaves[i];
        proof {
            assert(steps[i as int] == leaf.atom());
            assert(steps.take(i + 1).drop_last() =~= steps.take(i as int));
            assert(steps.take(i + 1).last() == steps[i as int]);
        }
        match leaf {
            MapDiff::Initial { entries } => {
                let ghost all = models(entries@);
                let mut n: usize = 0;
                assert(all.take(0) =~= Seq::empty());
                while n < entries.len()
                    invariant
                        n <= entries@.len(),
                        all == models(entries@),
                        jk == right_key::<RK, RV, JK, FR>(*right_join_key),
                        right_join_key.lawful(),
                        changed_join_keys.wf(),
                        changed_join_keys@ == extend_new(from, entry_joins(all.take(n as int), jk)),
                    decreases entries@.len() - n,
                {
                    let (key, value) = &entries[n];
                    let join = right_join_key.right_join_key(key, value);
                    proof {
                        assert(all.take(n + 1).drop_last() =~= all.take(n as int));
                        assert(all.take(n + 1).last() == (key.model(), value.model()));
                        extend_new_concat(
                            from,
                            entry_joins(all.take(n as int), jk),
                            join_seq(join.model()),
                        );
                    }
                    insert_join(join, changed_join_keys);
                    n += 1;
                }
                assert(all.take(n as int) =~= all);
            },
            MapDiff::Insert { key, value } => {
                insert_join(right_join_key.right_join_key(key, value), changed_join_keys);
            },
            MapDiff::Remove { key, old_value } => {
                insert_join(right_join_key.right_join_key(key, old_value), changed_join_keys);
            },
            MapDiff::Update { key, old_value, new_value } => {
                let before = right_join_key.right_join_key(key, old_value);
                let after = right_join_key.right_join_key(key, new_value);
                proof {
                    extend_new_concat(from, join_seq(before.model()), join_seq(after.model()));
                }
                insert_join(before, changed_join_keys);
                insert_join(after, changed_join_keys);
            },
            MapDiff::Batch { .. } => {},
        }
        i += 1;
    }
    assert(steps.take(i as int) =~= steps);
}

/// The left half of a join that gives at most one row for each left row, under its key: the left
/// rows and the kept output. The right rows may belong to several joins.
#[verifier::reject_recursive_types(LK)]
#[verifier::reject_recursive_types(LV)]
#[verifier::reject_recursive_types(JK)]
#[verifier::reject_recursive_types(OV)]
pub struct KeyedJoin<LK: MapKey, LV: CellValue, JK: MapKey, OV: CellValue> {
    left: KeyedIndex<LK, LV, JK>,
    output_cache: FxMap<LK, OV>,
    parallel_active: bool,
}

impl<LK: MapKey, LV: CellValue, JK: MapKey, OV: CellValue> KeyedJoin<LK, LV, JK, OV> {
    /// The left rows.
    pub closed spec fn left(&self) -> Side<LK::Model, LV::Model, JK::Model> {
        self.left@
    }

    /// The kept output.
    pub closed spec fn output(&self) -> Map<LK::Model, OV::Model> {
        self.output_cache@
    }

    /// Whether the join computes on the worker pool.
    pub closed spec fn parallel(&self) -> bool {
        self.parallel_active
    }

    /// The kept output is the join of the left rows with these right rows.
    pub open spec fn joins<RK, RV>(
        &self,
        right: Side<RK, RV, JK::Model>,
        project: spec_fn(LK::Model, LV::Model, Seq<(RK, RV)>) -> Option<OV::Model>,
    ) -> bool {
        &&& self.left().wf()
        &&& self.output() == joined(self.left(), right, project)
    }

    pub fn new() -> (join: KeyedJoin<LK, LV, JK, OV>)
        ensures
            join.left() == empty_side::<LK::Model, LV::Model, JK::Model>(),
            join.left().wf(),
            join.output() == Map::<LK::Model, OV::Model>::empty(),
            !join.parallel(),
    {
        KeyedJoin { left: KeyedIndex::new(), output_cache: FxMap::new(), parallel_active: false }
    }

    /// The kept output at a key.
    pub fn get(&self, key: &LK) -> (value: Option<&OV>)
        ensures
            value is Some == self.output().contains_key(key.model()),
            value is Some ==> value->Some_0.model() == self.output()[key.model()],
    {
        self.output_cache.get(key)
    }

    /// Follows a diff of the left rows, and tells how the output changes: each touched row comes to
    /// what it is joined to with the right rows as they are.
    pub fn apply_left<
        RK: MapKey,
        RV: CellValue,
        FL: RowFn<LK, LV, JK>,
        P: StageProject<LK, LV, RK, RV, OV>,
    >(
        &mut self,
        right: &RelationIndex<RK, RV, JK>,
        diff: &MapDiff<LK, LV>,
        left_join_key: &FL,
        project: &P,
        pool: Option<&WorkerPool>,
    ) -> (changes: Vec<MapDiff<LK, OV>>)
        requires
            right.wf(),
            pure2::<LK, LV, JK, FL>(*left_join_key),
            project.lawful(),
            old(self).left().wf(),
        ensures
            final(self).left() == old(self).left().run(
                diff.steps(),
                total_key::<LK, LV, JK, FL>(*left_join_key),
            ),
            final(self).left().wf(),
            old(self).joins(right@, projection::<LK, LV, RK, RV, OV, P>(*project))
                ==> final(self).joins(right@, projection::<LK, LV, RK, RV, OV, P>(*project)),
            flat(changes@),
            exists|keys: Seq<LK::Model>|
                #![trigger delta(old(self).output(), keys, final(self).output())]
                old(self).left().keys_run(
                    diff.steps(),
                    total_key::<LK, LV, JK, FL>(*left_join_key),
                    Seq::empty(),
                    keys,
                ) && steps_of(changes@) == delta(old(self).output(), keys, final(self).output())
                    && final(self).output() == put_all(
                    old(self).output(),
                    keys,
                    joined(
                        final(self).left(),
                        right@,
                        projection::<LK, LV, RK, RV, OV, P>(*project),
                    ),
                ) && final(self).parallel() == next_parallel(
                    old(self).parallel(),
                    saturated(join_work(final(self).left(), right@, keys)),
                ),
            fits_all(old(self).output(), steps_of(changes@)),
            replay(old(self).output(), steps_of(changes@)) == final(self).output(),
    {
        let mut impacted: OrderedSet<LK> = OrderedSet::new();
        let ghost side = self.left@;
        let ghost out = self.output_cache@;
        let ghost jk = total_key::<LK, LV, JK, FL>(*left_join_key);
        let ghost p = projection::<LK, LV, RK, RV, OV, P>(*project);
        self.left.apply_left_diff(diff, left_join_key, &mut impacted);
        let keys = impacted.drain();
        proof {
            side.run_effect(diff.steps(), jk);
            joined_left_covers(side, right@, p, diff.steps(), jk, models(keys@));
        }
        let changes = recompute_keyed_impacted(
            &self.left,
            right,
            &mut self.output_cache,
            &mut self.parallel_active,
            &keys,
            project,
            pool,
        );
        proof {
            let want = joined(self.left@, right@, p);
            delta_replays(out, models(keys@), want);
            delta_settles(out, models(keys@), want);
            assert(self.output() == put_all(out, models(keys@), want));
            let from = old(self).output();
            assert(from == out);
            assert(steps_of(changes@) == delta(from, models(keys@), self.output()));
            assert(self.output() == put_all(
                from,
                models(keys@),
                joined(self.left(), right@, projection::<LK, LV, RK, RV, OV, P>(*project)),
            ));
            assert(self.parallel() == next_parallel(
                old(self).parallel(),
                saturated(join_work(self.left(), right@, models(keys@))),
            ));
        }
        changes
    }

    /// Lets a diff change the right rows, and tells how the output changes.
    pub fn apply_right<
        RK: MapKey,
        RV: CellValue,
        FR: RightJoinKey<RK, RV, JK>,
        P: StageProject<LK, LV, RK, RV, OV>,
    >(
        &mut self,
        right: &mut RelationIndex<RK, RV, JK>,
        diff: &MapDiff<RK, RV>,
        right_join_key: &FR,
        project: &P,
        pool: Option<&WorkerPool>,
    ) -> (changes: Vec<MapDiff<LK, OV>>)
        requires
            old(right).wf(),
            right_join_key.lawful(),
            project.lawful(),
            old(self).joins(old(right)@, projection::<LK, LV, RK, RV, OV, P>(*project)),
        ensures
            final(right).wf(),
            final(right)@ == old(right)@.run(diff.steps(), right_key::<RK, RV, JK, FR>(*right_join_key)),
            final(self).left() == old(self).left(),
            final(self).joins(final(right)@, projection::<LK, LV, RK, RV, OV, P>(*project)),
            flat(changes@),
            exists|joins: Seq<JK::Model>|
                #![trigger old(self).left().extend_members(joins, Seq::empty())]
                old(right)@.joins_run(
                    diff.steps(),
                    right_key::<RK, RV, JK, FR>(*right_join_key),
                    Seq::empty(),
                    joins,
                ) && steps_of(changes@) == delta(
                    old(self).output(),
                    old(self).left().extend_members(joins, Seq::empty()),
                    final(self).output(),
                ) && final(self).parallel() == next_parallel(
                    old(self).parallel(),
                    saturated(
                        join_work(
                            old(self).left(),
                            final(right)@,
                            old(self).left().extend_members(joins, Seq::empty()),
                        ),
                    ),
                ),
            fits_all(old(self).output(), steps_of(changes@)),
            replay(old(self).output(), steps_of(changes@)) == final(self).output(),
    {
        let mut changed: OrderedSet<JK> = OrderedSet::new();
        let mut impacted: OrderedSet<LK> = OrderedSet::new();
        let ghost before = right@;
        let ghost out = self.output_cache@;
        let ghost jk = right_key::<RK, RV, JK, FR>(*right_join_key);
        let ghost p = projection::<LK, LV, RK, RV, OV, P>(*project);
        proof {
            right.side_wf();
        }
        right.apply_diff(diff, right_join_key, &mut changed);
        let joins = changed.drain();
        self.left.collect_members(&joins, &mut impacted);
        let keys = impacted.drain();
        proof {
            before.joins_run_effect(diff.steps(), jk, Seq::empty(), models(joins@));
            joined_right_covers(self.left@, before, right@, p, models(joins@));
        }
        let changes = recompute_keyed_impacted(
            &self.left,
            right,
            &mut self.output_cache,
            &mut self.parallel_active,
            &keys,
            project,
            pool,
        );
        proof {
            delta_replays(out, models(keys@), self.output_cache@);
            assert(models(keys@) == old(self).left().extend_members(models(joins@), Seq::empty()));
        }
        changes
    }

    /// Learns of a diff of right rows that another join has let change them, and tells how the
    /// output changes. The join keys looked at are those of the rows that the diff names.
    pub fn observe_shared_right_diff<
        RK: MapKey,
        RV: CellValue,
        FR: RightJoinKey<RK, RV, JK>,
        P: StageProject<LK, LV, RK, RV, OV>,
    >(
        &mut self,
        right: &RelationIndex<RK, RV, JK>,
        diff: &MapDiff<RK, RV>,
        right_join_key: &FR,
        project: &P,
        pool: Option<&WorkerPool>,
    ) -> (changes: Vec<MapDiff<LK, OV>>)
        requires
            right.wf(),
            right_join_key.lawful(),
            project.lawful(),
            old(self).left().wf(),
        ensures
            final(self).left() == old(self).left(),
            ({
                let joins = observed_joins(
                    diff.steps(),
                    right_key::<RK, RV, JK, FR>(*right_join_key),
                    Seq::empty(),
                );
                let keys = old(self).left().extend_members(joins, Seq::empty());
                let want = joined(
                    old(self).left(),
                    right@,
                    projection::<LK, LV, RK, RV, OV, P>(*project),
                );
                &&& final(self).output() == put_all(old(self).output(), keys, want)
                &&& steps_of(changes@) == delta(old(self).output(), keys, want)
                &&& final(self).parallel() == next_parallel(
                    old(self).parallel(),
                    saturated(join_work(old(self).left(), right@, keys)),
                )
            }),
            flat(changes@),
            fits_all(old(self).output(), steps_of(changes@)),
            replay(old(self).output(), steps_of(changes@)) == final(self).output(),
    {
        let mut changed: OrderedSet<JK> = OrderedSet::new();
        let mut impacted: OrderedSet<LK> = OrderedSet::new();
        let ghost out = self.output_cache@;
        observe_joins(diff, right_join_key, &mut changed);
        let joins = changed.drain();
        self.left.collect_members(&joins, &mut impacted);
        let keys = impacted.drain();
        let changes = recompute_keyed_impacted(
            &self.left,
            right,
            &mut self.output_cache,
            &mut self.parallel_active,
            &keys,
            project,
            pool,
        );
        proof {
            delta_replays(
                out,
                models(keys@),
                joined(self.left@, right@, projection::<LK, LV, RK, RV, OV, P>(*project)),
            );
        }
        changes
    }
}

/// The keys touched by what a join tells are the touched keys whose output changes.
pub proof fn delta_touches<K, V, J>(
    side: Side<K, V, J>,
    keys: Seq<K>,
    want: Map<K, V>,
    jk: spec_fn(K, V) -> Option<J>,
    touched: Seq<K>,
)
    requires
        keys.no_duplicates(),
        forall|k: K, v: V| #[trigger] jk(k, v) is Some,
        side.keys_run(delta(side.rows, keys, want), jk, Seq::empty(), touched),
    ensures
        touched == kept(keys, differing(side.rows, want)),
    decreases keys.len(),
{
    let m = side.rows;
    let d = delta(m, keys, want);
    let diff = differing(m, want);
    if keys.len() > 0 {
        let rest = keys.drop_last();
        let last = keys.last();
        let head = delta(m, rest, want);
        let mid_map = put_all(m, rest, want);
        let tail = commit_change(last, lookup(mid_map, last), lookup(want, last));
        put_all_lookup(m, rest, want);
        assert(!rest.contains(last));
        assert(lookup(mid_map, last) == lookup(m, last));
        if tail.len() == 0 {
            assert(d =~= head);
            assert(!diff.contains(last));
            delta_touches(side, rest, want, jk, touched);
        } else {
            assert(tail.len() == 1);
            assert(d.drop_last() =~= head);
            assert(d.last() == tail[0]);
            let mid = choose|mid: Seq<K>|
                side.keys_run(d.drop_last(), jk, Seq::empty(), mid) && #[trigger] side.run(
                    d.drop_last(),
                    jk,
                ).keys_step(d.last(), mid, touched);
            delta_touches(side, rest, want, jk, mid);
            side.run_rows(head, jk);
            delta_replays(m, rest, want);
            kept_contains(rest, diff);
            assert(diff.contains(last));
        }
    } else {
        assert(kept(keys, diff) =~= Seq::empty());
    }
}

/// Following what a join tells touches the keys whose output changes, and a join on top of it tells
/// of the keys that were touched below.
pub proof fn delta_through<K, V, J, O>(
    side: Side<K, V, J>,
    keys: Seq<K>,
    want: Map<K, V>,
    jk: spec_fn(K, V) -> Option<J>,
    touched: Seq<K>,
    before: Map<K, O>,
    after: Map<K, O>,
)
    requires
        keys.no_duplicates(),
        forall|k: K, v: V| #[trigger] jk(k, v) is Some,
        side.keys_run(delta(side.rows, keys, want), jk, Seq::empty(), touched),
        forall|k: K|
            lookup(side.rows, k) == lookup(want, k) ==> #[trigger] lookup(before, k) == lookup(after, k),
    ensures
        delta(before, touched, after) == delta(before, keys, after),
        put_all(before, touched, after) == put_all(before, keys, after),
{
    delta_touches(side, keys, want, jk, touched);
    delta_skips(before, keys, after, differing(side.rows, want));
}

impl<LK: MapKey, LV: CellValue, JK: MapKey, OV: CellValue> KeyedJoin<LK, LV, JK, OV> {
    /// Sets one left row, and tells how the output changes. The join then no longer computes on the
    /// worker pool.
    pub fn apply_row<
        RK: MapKey,
        RV: CellValue,
        FL: RowFn<LK, LV, JK>,
        P: StageProject<LK, LV, RK, RV, OV>,
    >(
        &mut self,
        right: &RelationIndex<RK, RV, JK>,
        key: &LK,
        value: &LV,
        left_join_key: &FL,
        project: &P,
    ) -> (changes: Vec<MapDiff<LK, OV>>)
        requires
            right.wf(),
            pure2::<LK, LV, JK, FL>(*left_join_key),
            project.lawful(),
            old(self).joins(right@, projection::<LK, LV, RK, RV, OV, P>(*project)),
        ensures
            final(self).left() == old(self).left().set(
                key.model(),
                value.model(),
                Some(image2::<LK, LV, JK, FL>(*left_join_key, key.model(), value.model())),
            ),
            final(self).joins(right@, projection::<LK, LV, RK, RV, OV, P>(*project)),
            !final(self).parallel(),
            flat(changes@),
            steps_of(changes@) == delta(old(self).output(), seq![key.model()], final(self).output()),
            fits_all(old(self).output(), steps_of(changes@)),
            replay(old(self).output(), steps_of(changes@)) == final(self).output(),
    {
        let ghost side = self.left@;
        let ghost out = self.output_cache@;
        let ghost k = key.model();
        let ghost p = projection::<LK, LV, RK, RV, OV, P>(*project);
        let ghost jk = total_key::<LK, LV, JK, FL>(*left_join_key);
        let ghost steps = seq![Change::Insert { key: k, value: value.model() }];
        self.parallel_active = false;
        let join_key = call2(left_join_key, key, value);
        self.left.set(key.clone_value(), value.clone_value(), Some(join_key));
        proof {
            assert(steps.drop_last() =~= Seq::empty());
            assert(side.run(steps, jk) == side.run(Seq::empty(), jk).step(steps[0], jk));
            assert(self.left@ == side.run(steps, jk));
            assert(!Seq::<LK::Model>::empty().contains(k));
            assert(Seq::<LK::Model>::empty().push(k) =~= seq![k]);
            assert(side.keys_run(steps.drop_last(), jk, Seq::empty(), Seq::empty()));
            assert(side.run(steps.drop_last(), jk).keys_step(steps.last(), Seq::empty(), seq![k]));
            assert(side.keys_run(steps, jk, Seq::empty(), seq![k]));
            side.run_effect(steps, jk);
            joined_left_covers(side, right@, p, steps, jk, seq![k]);
        }
        let desired = desired_value(&self.left, right, key, project);
        let mut changes: Vec<MapDiff<LK, OV>> = Vec::new();
        let ghost want = joined(self.left@, right@, p);
        commit_keyed_value(&mut self.output_cache, key.clone_value(), desired, &mut changes);
        proof {
            assert(seq![k].drop_last() =~= Seq::empty());
            assert(put_all(out, seq![k], want) == put(put_all(out, Seq::empty(), want), k, lookup(want, k)));
            let ks = seq![k];
            assert(ks.last() == k);
            assert(delta(out, ks, want) == delta(out, ks.drop_last(), want) + commit_change(
                ks.last(),
                lookup(put_all(out, ks.drop_last(), want), ks.last()),
                lookup(want, ks.last()),
            ));
            assert(delta(out, ks.drop_last(), want) =~= Seq::empty());
            assert(delta(out, ks, want) =~= commit_change(k, lookup(out, k), lookup(want, k)));
            assert(steps_of(changes@) =~= delta(out, seq![k], want));
            delta_replays(out, seq![k], want);
        }
        changes
    }

    /// The left rows as entries. Setting them in turn on an empty side gives the left rows back.
    pub(crate) fn left_entries(
        &self,
        Ghost(jk): Ghost<spec_fn(LK::Model, LV::Model) -> Option<JK::Model>>,
    ) -> (entries: Vec<(LK, LV)>)
        requires
            self.left().wf(),
            self.left().keyed_by(jk),
        ensures
            empty_side::<LK::Model, LV::Model, JK::Model>().load(models(entries@), jk) == self.left(),
            entry_keys(models(entries@)).no_duplicates(),
    {
        self.left.entries(Ghost(jk))
    }
}

impl<RK: MapKey, RV: CellValue, JK: MapKey> RelationIndex<RK, RV, JK> {
    /// The rows as entries. Setting them in turn on an empty side gives the rows back.
    pub(crate) fn entries(
        &self,
        Ghost(jk): Ghost<spec_fn(RK::Model, RV::Model) -> Option<JK::Model>>,
    ) -> (entries: Vec<(RK, RV)>)
        requires
            self@.wf(),
            self@.keyed_by(jk),
        ensures
            empty_side::<RK::Model, RV::Model, JK::Model>().load(models(entries@), jk) == self@,
            entry_keys(models(entries@)).no_duplicates(),
    {
        self.index.entries(Ghost(jk))
    }
}

impl<LK: MapKey, LV: CellValue, JK: MapKey, OV: CellValue> KeyedJoin<LK, LV, JK, OV> {
    /// The left row of a key.
    pub fn left_row(&self, key: &LK) -> (row: Option<&LV>)
        ensures
            row is Some == self.left().rows.contains_key(key.model()),
            row is Some ==> row->Some_0.model() == self.left().rows[key.model()],
    {
        self.left.row(key)
    }

    /// The join keys that left rows have, in an order that nothing is said of.
    pub fn left_joins(&self) -> (joins: Vec<JK>)
        ensures
            self.left().lists_joins(models(joins@)),
    {
        self.left.joins()
    }

    /// Brings the output of the left rows that have one of several join keys up to date, and tells
    /// the changes.
    pub fn recompute_joins<RK: MapKey, RV: CellValue, P: StageProject<LK, LV, RK, RV, OV>>(
        &mut self,
        right: &RelationIndex<RK, RV, JK>,
        joins: &Vec<JK>,
        project: &P,
    ) -> (changes: Vec<MapDiff<LK, OV>>)
        requires
            right.wf(),
            project.lawful(),
            old(self).left().wf(),
        ensures
            final(self).left() == old(self).left(),
            ({
                let keys = old(self).left().extend_members(models(joins@), Seq::empty());
                let want = joined(
                    old(self).left(),
                    right@,
                    projection::<LK, LV, RK, RV, OV, P>(*project),
                );
                &&& final(self).output() == put_all(old(self).output(), keys, want)
                &&& steps_of(changes@) == delta(old(self).output(), keys, want)
            }),
            flat(changes@),
    {
        let mut impacted: OrderedSet<LK> = OrderedSet::new();
        self.left.collect_members(joins, &mut impacted);
        let keys = impacted.drain();
        recompute_keyed_impacted(
            &self.left,
            right,
            &mut self.output_cache,
            &mut self.parallel_active,
            &keys,
            project,
            None,
        )
    }
}

} // verus!
