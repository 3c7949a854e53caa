//! A projection that gives any number of rows for each source row, under keys of its own.
use vstd::prelude::*;

use crate::delta::{
    commit_change, commit_keyed_value, delta, delta_replays, put_all, put_all_lookup,
};
use crate::diff::{
    all_leaves, appends, atoms, entries_map, fits_all, flat, replay, replay_concat, steps_of,
    Change, MapDiff,
};
use crate::func::{call2, image2, pure2, RowFn};
use crate::fx::{lookup, FxMap, FxSet};
use crate::index::{entry_keys, without, without_contains};
use crate::join_runtime::rows::{entries_map_keys, gives, one_giver, stale_keys};
use crate::ordered_set::{
    extend_new, extend_new_contains, kept, kept_contains, push_new, push_new_contains, OrderedSet,
};
use crate::value::{models, models_push, CellValue, MapKey};

verus! {

/// Appends copies of the changes of a diff in order, batches opened up.
pub fn flatten_diff<K: MapKey, V: CellValue>(diff: &MapDiff<K, V>, out: &mut Vec<MapDiff<K, V>>)
    ensures
        appends(old(out)@, final(out)@, diff.steps()),
{
    diff.flatten_into(out)
}

/// Changes as one batch, or nothing where there are none.
pub fn emit_changes<K: CellValue, V: CellValue>(changes: Vec<MapDiff<K, V>>) -> (diff: Option<
    MapDiff<K, V>,
>)
    ensures
        changes@.len() == 0 ==> diff is None,
        changes@.len() > 0 ==> diff == Some(MapDiff::Batch { changes }),
{
    if changes.len() == 0 {
        None
    } else {
        Some(MapDiff::Batch { changes })
    }
}

/// What is emitted of some changes: one batch of them, one by one, or nothing where there are none.
pub open spec fn emits<K: CellValue, V: CellValue>(
    emitted: Option<MapDiff<K, V>>,
    told: Seq<Change<K::Model, V::Model>>,
) -> bool {
    match emitted {
        Some(batch) => batch is Batch && flat(batch->changes@) && batch.steps() == told && told.len()
            > 0,
        None => told.len() == 0,
    }
}

/// The changes that are told by what is emitted.
pub open spec fn emitted_changes<K: CellValue, V: CellValue>(
    emitted: Option<MapDiff<K, V>>,
) -> Seq<Change<K::Model, V::Model>> {
    match emitted {
        Some(batch) => batch.steps(),
        None => Seq::empty(),
    }
}

/// Single changes as one batch, or nothing where there are none.
pub fn batch_of<K: CellValue, V: CellValue>(changes: Vec<MapDiff<K, V>>) -> (emitted: Option<
    MapDiff<K, V>,
>)
    requires
        flat(changes@),
    ensures
        emits(emitted, steps_of(changes@)),
{
    proof {
        crate::diff::steps_of_flat(changes@);
    }
    emit_changes(changes)
}

/// How two rows came to claim the same output key.
#[derive(Clone, Copy, Debug, PartialEq, Eq)]
pub enum OutputCollision {
    /// Within one source row.
    WithinSourceRow,
    /// Across the source rows of one event.
    AcrossSourceRows,
    /// Against a source row that the event does not touch.
    ExistingSourceRow,
}

/// The rows that a source key gives: what its row is computed to, or none without a row.
pub open spec fn source_rows<SK, SV, OK, OV>(
    source: Map<SK, SV>,
    compute: spec_fn(SK, SV) -> Seq<(OK, OV)>,
) -> spec_fn(SK) -> Seq<(OK, OV)> {
    |k: SK|
        if source.contains_key(k) {
            compute(k, source[k])
        } else {
            Seq::empty()
        }
}

/// What a closure computes for a source row.
pub open spec fn row_computation<
    SK: CellValue,
    SV: CellValue,
    OK: CellValue,
    OV: CellValue,
    FO: RowFn<SK, SV, Vec<(OK, OV)>>,
>(f: FO) -> spec_fn(SK::Model, SV::Model) -> Seq<(OK::Model, OV::Model)> {
    |k: SK::Model, v: SV::Model| image2::<SK, SV, Vec<(OK, OV)>, FO>(f, k, v)
}

/// The keys that an event touches, in order: with a new beginning, first the keys that were there.
pub open spec fn event_keys<SK, SV>(
    order: Seq<SK>,
    steps: Seq<Change<SK, SV>>,
    from: Seq<SK>,
) -> Seq<SK>
    decreases steps.len(),
{
    if steps.len() == 0 {
        from
    } else {
        let rest = steps.drop_last();
        let sofar = event_keys(order, rest, from);
        match steps.last() {
            Change::Initial { entries } => extend_new(
                extend_new(sofar, source_order(order, rest)),
                entry_keys(entries),
            ),
            Change::Insert { key, value } => push_new(sofar, key),
            Change::Remove { key, old_value } => push_new(sofar, key),
            Change::Update { key, old_value, new_value } => push_new(sofar, key),
        }
    }
}

/// The keys of the source in the order in which they came first.
pub open spec fn source_order<SK, SV>(order: Seq<SK>, steps: Seq<Change<SK, SV>>) -> Seq<SK>
    decreases steps.len(),
{
    if steps.len() == 0 {
        order
    } else {
        let before = source_order(order, steps.drop_last());
        match steps.last() {
            Change::Initial { entries } => extend_new(Seq::empty(), entry_keys(entries)),
            Change::Insert { key, value } => push_new(before, key),
            Change::Remove { key, old_value } => without(before, key),
            Change::Update { key, old_value, new_value } => push_new(before, key),
        }
    }
}

/// The output keys that source keys claim, in order, with the claimants.
pub open spec fn claims<SK, OK, OV>(
    keys: Seq<SK>,
    rows: spec_fn(SK) -> Seq<(OK, OV)>,
) -> Seq<(SK, OK)>
    decreases keys.len(),
{
    if keys.len() == 0 {
        Seq::empty()
    } else {
        claims(keys.drop_last(), rows) + entry_keys(rows(keys.last())).map_values(
            |o: OK| (keys.last(), o),
        )
    }
}

/// `o` is claimed by the claimant of one of these claims.
pub open spec fn claimed<SK, OK>(made: Seq<(SK, OK)>, o: OK) -> bool {
    exists|i: int| 0 <= i < made.len() && (#[trigger] made[i]).1 == o
}

/// The claimant of an output key.
pub open spec fn claimant<SK, OK>(made: Seq<(SK, OK)>, o: OK) -> SK {
    made[choose|i: int| 0 <= i < made.len() && (#[trigger] made[i]).1 == o].0
}

/// The first claim of an output key that is claimed already.
pub open spec fn first_clash<SK, OK>(made: Seq<(SK, OK)>) -> Option<OutputCollision>
    decreases made.len(),
{
    if made.len() == 0 {
        None
    } else {
        let rest = made.drop_last();
        match first_clash(rest) {
            Some(clash) => Some(clash),
            None => if claimed(rest, made.last().1) {
                if claimant(rest, made.last().1) == made.last().0 {
                    Some(OutputCollision::WithinSourceRow)
                } else {
                    Some(OutputCollision::AcrossSourceRows)
                }
            } else {
                None
            },
        }
    }
}

/// A claimed output key belongs to a source key that the event does not touch.
pub open spec fn owner_clash<SK, OK>(
    made: Seq<(SK, OK)>,
    owners: Map<OK, SK>,
    keys: Seq<SK>,
) -> bool {
    exists|i: int|
        0 <= i < made.len() && owners.contains_key((#[trigger] made[i]).1) && owners[made[i].1]
            != made[i].0 && !keys.contains(owners[made[i].1])
}

/// The collision, if any, of the rows that touched source keys are to give.
pub open spec fn collision<SK, OK, OV>(
    keys: Seq<SK>,
    rows: spec_fn(SK) -> Seq<(OK, OV)>,
    owners: Map<OK, SK>,
) -> Option<OutputCollision> {
    match first_clash(claims(keys, rows)) {
        Some(clash) => Some(clash),
        None => if owner_clash(claims(keys, rows), owners, keys) {
            Some(OutputCollision::ExistingSourceRow)
        } else {
            None
        },
    }
}

/// What a projection keeps: the output keys that each source key has given, the source key that has
/// given each output key, and the output.
#[verifier::reject_recursive_types(SK)]
#[verifier::reject_recursive_types(OK)]
pub struct Projected<SK, OK, OV> {
    pub owned: Map<SK, Seq<OK>>,
    pub owners: Map<OK, SK>,
    pub cache: Map<OK, OV>,
}

/// A map without some keys.
pub open spec fn without_keys<K, V>(m: Map<K, V>, keys: Seq<K>) -> Map<K, V> {
    Map::new(|k: K| m.contains_key(k) && !keys.contains(k), |k: K| m[k])
}

/// The rows of several source keys, one source key after the other.
pub open spec fn all_rows<SK, OK, OV>(
    keys: Seq<SK>,
    rows: spec_fn(SK) -> Seq<(OK, OV)>,
) -> Seq<(OK, OV)>
    decreases keys.len(),
{
    if keys.len() == 0 {
        Seq::empty()
    } else {
        all_rows(keys.drop_last(), rows) + rows(keys.last())
    }
}

impl<SK, OK, OV> Projected<SK, OK, OV> {
    /// The output keys that a source key has given.
    pub open spec fn keys_of(self, k: SK) -> Seq<OK> {
        if self.owned.contains_key(k) {
            self.owned[k]
        } else {
            Seq::empty()
        }
    }

    /// The output keys that touched source keys have given and no longer give, in order.
    pub open spec fn stale(self, keys: Seq<SK>, rows: spec_fn(SK) -> Seq<(OK, OV)>) -> Seq<OK>
        decreases keys.len(),
    {
        if keys.len() == 0 {
            Seq::empty()
        } else {
            self.stale(keys.drop_last(), rows) + stale_keys(
                self.keys_of(keys.last()),
                rows(keys.last()),
            )
        }
    }

    /// The output keys of each source key once touched source keys have given their rows.
    pub open spec fn next_owned(self, keys: Seq<SK>, rows: spec_fn(SK) -> Seq<(OK, OV)>) -> Map<
        SK,
        Seq<OK>,
    > {
        Map::new(
            |k: SK|
                if keys.contains(k) {
                    rows(k).len() > 0
                } else {
                    self.owned.contains_key(k)
                },
            |k: SK|
                if keys.contains(k) {
                    entry_keys(rows(k))
                } else {
                    self.owned[k]
                },
        )
    }

    /// What is kept once touched source keys have given their rows.
    pub open spec fn give(self, keys: Seq<SK>, rows: spec_fn(SK) -> Seq<(OK, OV)>) -> Projected<
        SK,
        OK,
        OV,
    > {
        let stale = self.stale(keys, rows);
        let given = all_rows(keys, rows);
        Projected {
            owned: self.next_owned(keys, rows),
            owners: put_claims(without_keys(self.owners, stale), claims(keys, rows)),
            cache: put_all(
                put_all(self.cache, stale, Map::empty()),
                entry_keys(given),
                entries_map(given),
            ),
        }
    }

    /// The changes of the output: first what is no longer given goes, then what is given comes.
    pub open spec fn told(self, keys: Seq<SK>, rows: spec_fn(SK) -> Seq<(OK, OV)>) -> Seq<
        Change<OK, OV>,
    > {
        let stale = self.stale(keys, rows);
        let given = all_rows(keys, rows);
        delta(self.cache, stale, Map::empty()) + delta(
            put_all(self.cache, stale, Map::empty()),
            entry_keys(given),
            entries_map(given),
        )
    }

    /// The output holds exactly the rows that the source keys give, each output key by one of them.
    pub open spec fn holds(self, rows: spec_fn(SK) -> Seq<(OK, OV)>) -> bool {
        &&& forall|k: SK|
            #![trigger self.keys_of(k)]
            self.keys_of(k) == entry_keys(rows(k)) && self.keys_of(k).no_duplicates()
        &&& forall|k: SK, o: OK|
            #![trigger entry_keys(rows(k)).contains(o)]
            entry_keys(rows(k)).contains(o) <==> lookup(self.owners, o) == Some(k)
        &&& forall|o: OK| #[trigger]
            lookup(self.cache, o) == match lookup(self.owners, o) {
                Some(k) => lookup(entries_map(rows(k)), o),
                None => None,
            }
    }

    /// What is told fits the output and leads to the new output.
    pub proof fn told_replays(self, keys: Seq<SK>, rows: spec_fn(SK) -> Seq<(OK, OV)>)
        ensures
            fits_all(self.cache, self.told(keys, rows)),
            replay(self.cache, self.told(keys, rows)) == self.give(keys, rows).cache,
    {
        let stale = self.stale(keys, rows);
        let given = all_rows(keys, rows);
        let mid = put_all(self.cache, stale, Map::empty());
        delta_replays(self.cache, stale, Map::empty());
        delta_replays(mid, entry_keys(given), entries_map(given));
        replay_concat(
            self.cache,
            delta(self.cache, stale, Map::empty()),
            delta(mid, entry_keys(given), entries_map(given)),
        );
    }
}

/// The owners of output keys once claims have been granted in turn.
pub open spec fn put_claims<SK, OK>(owners: Map<OK, SK>, made: Seq<(SK, OK)>) -> Map<OK, SK>
    decreases made.len(),
{
    if made.len() == 0 {
        owners
    } else {
        put_claims(owners, made.drop_last()).insert(made.last().1, made.last().0)
    }
}

/// The source rows, and what is kept of their projection.
#[verifier::reject_recursive_types(SK)]
#[verifier::reject_recursive_types(SV)]
#[verifier::reject_recursive_types(OK)]
#[verifier::reject_recursive_types(OV)]
pub struct MapRuntime<SK: MapKey, SV: CellValue, OK: MapKey, OV: CellValue, FO> {
    source_rows: FxMap<SK, SV>,
    source_order: OrderedSet<SK>,
    source_output_keys: FxMap<SK, Vec<OK>>,
    output_owners: FxMap<OK, SK>,
    output_cache: FxMap<OK, OV>,
    compute_rows: FO,
}

impl<
    SK: MapKey,
    SV: CellValue,
    OK: MapKey,
    OV: CellValue,
    FO: RowFn<SK, SV, Vec<(OK, OV)>>,
> MapRuntime<SK, SV, OK, OV, FO> {
    /// The source rows.
    pub closed spec fn source(&self) -> Map<SK::Model, SV::Model> {
        self.source_rows@
    }

    /// The keys of the source in the order in which they came first.
    pub closed spec fn order(&self) -> Seq<SK::Model> {
        self.source_order@
    }

    /// What is kept of the projection.
    pub closed spec fn output(&self) -> Projected<SK::Model, OK::Model, OV::Model> {
        Projected {
            owned: self.source_output_keys@,
            owners: self.output_owners@,
            cache: self.output_cache@,
        }
    }

    pub closed spec fn compute(&self) -> FO {
        self.compute_rows
    }

    pub closed spec fn wf(&self) -> bool {
        &&& self.source_order.wf()
        &&& pure2::<SK, SV, Vec<(OK, OV)>, FO>(self.compute_rows)
    }

    /// The rows that each source key gives.
    pub open spec fn rows(&self) -> spec_fn(SK::Model) -> Seq<(OK::Model, OV::Model)> {
        source_rows(self.source(), row_computation::<SK, SV, OK, OV, FO>(self.compute()))
    }

    /// The output holds exactly the rows that the source rows give.
    pub open spec fn faithful(&self) -> bool {
        &&& source_listed(self.order(), self.source())
        &&& self.output().holds(self.rows())
    }

    /// The collision, if any, that changes of the source bring.
    pub open spec fn clash(
        &self,
        steps: Seq<Change<SK::Model, SV::Model>>,
    ) -> Option<OutputCollision> {
        collision(
            event_keys(self.order(), steps, Seq::empty()),
            source_rows(
                replay(self.source(), steps),
                row_computation::<SK, SV, OK, OV, FO>(self.compute()),
            ),
            self.output().owners,
        )
    }

    /// The kept output at a key.
    pub fn get(&self, key: &OK) -> (value: Option<&OV>)
        ensures
            value is Some == self.output().cache.contains_key(key.model()),
            value is Some ==> value->Some_0.model() == self.output().cache[key.model()],
    {
        self.output_cache.get(key)
    }

    fn apply_source_diff(&mut self, diff: &MapDiff<SK, SV>) -> (impacted: Vec<SK>)
        requires
            old(self).wf(),
        ensures
            final(self).wf(),
            final(self).source() == replay(old(self).source(), diff.steps()),
            final(self).order() == source_order(old(self).order(), diff.steps()),
            final(self).output() == old(self).output(),
            final(self).compute() == old(self).compute(),
            models(impacted@) == event_keys(old(self).order(), diff.steps(), Seq::empty()),
            models(impacted@).no_duplicates(),
    {
        let ghost steps = diff.steps();
        let leaves = diff.leaves();
        let mut impacted: OrderedSet<SK> = OrderedSet::new();
        let mut i: usize = 0;
        assert(steps.take(0) =~= Seq::empty());
        while i < leaves.len()
            invariant
                i <= leaves@.len(),
                all_leaves(leaves@),
                atoms(leaves@) == steps,
                self.wf(),
                impacted.wf(),
                self.source() == replay(old(self).source(), steps.take(i as int)),
                self.order() == source_order(old(self).order(), steps.take(i as int)),
                self.output() == old(self).output(),
                self.compute() == old(self).compute(),
                impacted@ == event_keys(old(self).order(), steps.take(i as int), Seq::empty()),
            decreases leaves@.len() - i,
        {
            proof {
                assert(steps[i as int] == leaves@[i as int].atom());
                assert(steps.take(i + 1).drop_last() =~= steps.take(i as int));
                assert(steps.take(i + 1).last() == steps[i as int]);
            }
            match leaves[i] {
                MapDiff::Initial { entries } => {
                    let previous = self.source_order.drain();
                    self.source_rows.clear();
                    impacted.extend(&previous);
                    let ghost all = models(entries@);
                    let ghost names = entry_keys(all);
                    let ghost base = impacted@;
                    let mut n: usize = 0;
                    proof {
                        assert(all.take(0) =~= Seq::empty());
                        assert(names.take(0) =~= Seq::empty());
                    }
                    while n < entries.len()
                        invariant
                            n <= entries@.len(),
                            all == models(entries@),
                            names == entry_keys(all),
                            self.wf(),
                            impacted.wf(),
                            self.source() == entries_map(all.take(n as int)),
                            self.order() == extend_new(Seq::empty(), names.take(n as int)),
                            self.output() == old(self).output(),
                            self.compute() == old(self).compute(),
                            impacted@ == extend_new(base, names.take(n as int)),
                        decreases entries@.len() - n,
                    {
                        let (key, value) = &entries[n];
                        proof {
                            assert(all.take(n + 1).drop_last() =~= all.take(n as int));
                            assert(all.take(n + 1).last() == (key.model(), value.model()));
                            assert(names.take(n + 1).drop_last() =~= names.take(n as int));
                            assert(names.take(n + 1).last() == key.model());
                        }
                        self.source_rows.insert(key.clone_value(), value.clone_value());
                        self.source_order.insert(key.clone_value());
                        impacted.insert(key.clone_value());
                        n += 1;
                    }
                    assert(all.take(n as int) =~= all);
                    assert(names.take(n as int) =~= names);
                },
                MapDiff::Insert { key, value } => {
                    self.source_rows.insert(key.clone_value(), value.clone_value());
                    self.source_order.insert(key.clone_value());
                    impacted.insert(key.clone_value());
                },
                MapDiff::Update { key, new_value, .. } => {
                    self.source_rows.insert(key.clone_value(), new_value.clone_value());
                    self.source_order.insert(key.clone_value());
                    impacted.insert(key.clone_value());
                },
                MapDiff::Remove { key, .. } => {
                    self.source_rows.remove(key);
                    self.source_order.remove(key);
                    impacted.insert(key.clone_value());
                },
                MapDiff::Batch { .. } => {},
            }
            i += 1;
        }
        proof {
            assert(steps.take(i as int) =~= steps);
            impacted.distinct();
        }
        impacted.drain()
    }

    fn rows_for(&self, key: &SK) -> (rows: Vec<(OK, OV)>)
        requires
            self.wf(),
        ensures
            models(rows@) == self.rows()(key.model()),
    {
        match self.source_rows.get(key) {
            Some(value) => call2(&self.compute_rows, key, value),
            None => {
                let rows: Vec<(OK, OV)> = Vec::new();
                assert(models(rows@) =~= Seq::empty());
                rows
            },
        }
    }

    /// Computes the rows of touched source keys, and looks for output keys that two source rows
    /// claim.
    fn compute_claims(&self, impacted: &Vec<SK>) -> (result: Result<
        Vec<Vec<(OK, OV)>>,
        OutputCollision,
    >)
        requires
            self.wf(),
            models(impacted@).no_duplicates(),
        ensures
            match result {
                Ok(computed) => {
                    &&& collision(models(impacted@), self.rows(), self.output().owners) is None
                    &&& computed@.len() == impacted@.len()
                    &&& forall|i: int|
                        0 <= i < computed@.len() ==> models((#[trigger] computed@[i])@) == self.rows()(
                            impacted@[i].model(),
                        )
                },
                Err(clash) => collision(models(impacted@), self.rows(), self.output().owners)
                    == Some(clash),
            },
    {
        let ghost keys = models(impacted@);
        let ghost rows = self.rows();
        let mut claims_made: FxMap<OK, SK> = FxMap::new();
        let mut computed: Vec<Vec<(OK, OV)>> = Vec::new();
        let mut i: usize = 0;
        assert(keys.take(0) =~= Seq::empty());
        while i < impacted.len()
            invariant
                i <= impacted@.len(),
                keys == models(impacted@),
                rows == self.rows(),
                self.wf(),
                computed@.len() == i,
                forall|n: int|
                    0 <= n < i ==> models((#[trigger] computed@[n])@) == rows(keys[n]),
                first_clash(claims(keys.take(i as int), rows)) is None,
                grants(claims(keys.take(i as int), rows), claims_made@),
            decreases impacted@.len() - i,
        {
            let source_key = &impacted[i];
            let ghost sk = keys[i as int];
            let desired = self.rows_for(source_key);
            let ghost names = entry_keys(models(desired@));
            let ghost before = claims(keys.take(i as int), rows);
            let ghost own = names.map_values(|o: OK::Model| (sk, o));
            let mut n: usize = 0;
            proof {
                assert(before + own.take(0) =~= before);
            }
            while n < desired.len()
                invariant
                    n <= desired@.len(),
                    names == entry_keys(models(desired@)),
                    names.len() == desired@.len(),
                    sk == source_key.model(),
                    own == names.map_values(|o: OK::Model| (sk, o)),
                    i < keys.len(),
                    sk == keys[i as int],
                    keys == models(impacted@),
                    rows == self.rows(),
                    models(desired@) == rows(sk),
                    before == claims(keys.take(i as int), rows),
                    first_clash(before + own.take(n as int)) is None,
                    grants(before + own.take(n as int), claims_made@),
                decreases desired@.len() - n,
            {
                let output_key = &desired[n].0;
                let ghost made = before + own.take(n as int);
                let ghost o = output_key.model();
                proof {
                    assert(names[n as int] == o);
                    assert((before + own.take(n + 1)).drop_last() =~= made);
                    assert((before + own.take(n + 1)).last() == (sk, o));
                }
                match claims_made.get(output_key) {
                    Some(claimant_key) => {
                        proof {
                            claims_prefix(keys, rows, i as int, n as int);
                            assert(grants(made, claims_made@));
                            clash_stays(before + own.take(n + 1), claims(keys, rows));
                        }
                        if claimant_key.equals(source_key) {
                            return Err(OutputCollision::WithinSourceRow);
                        } else {
                            return Err(OutputCollision::AcrossSourceRows);
                        }
                    },
                    None => {
                        claims_made.insert(output_key.clone_value(), source_key.clone_value());
                        proof {
                            grants_push(made, claims_made@.remove(o), (sk, o));
                            assert(claims_made@.remove(o).insert(o, sk) =~= claims_made@);
                            assert(made.push((sk, o)) =~= before + own.take(n + 1));
                        }
                    },
                }
                n += 1;
            }
            proof {
                assert(own.take(n as int) =~= own);
                assert(keys.take(i + 1).drop_last() =~= keys.take(i as int));
                assert(keys.take(i + 1).last() == sk);
                assert(claims(keys.take(i + 1), rows) =~= before + own);
            }
            computed.push(desired);
            i += 1;
        }
        assert(keys.take(i as int) =~= keys);
        let mut touched: FxSet<SK> = FxSet::new();
        let mut t: usize = 0;
        while t < impacted.len()
            invariant
                t <= impacted@.len(),
                keys == models(impacted@),
                forall|k: SK::Model| touched@.contains(k) <==> #[trigger] keys.take(t as int).contains(k),
            decreases impacted@.len() - t,
        {
            proof {
                let part = keys.take(t as int);
                let k = keys[t as int];
                assert(keys.take(t + 1) =~= part.push(k));
                assert forall|x: SK::Model| #[trigger] keys.take(t + 1).contains(x) <==> part.contains(x) || x
                    == k by {
                    if part.contains(x) {
                        let n = choose|n: int| 0 <= n < part.len() && part[n] == x;
                        assert(part.push(k)[n] == x);
                    }
                    assert(part.push(k)[part.len() as int] == k);
                }
            }
            touched.insert(impacted[t].clone_value());
            t += 1;
        }
        assert(keys.take(t as int) =~= keys);
        let mut j: usize = 0;
        assert(keys.take(0) =~= Seq::empty());
        while j < computed.len()
            invariant
                j <= computed@.len(),
                computed@.len() == impacted@.len(),
                keys == models(impacted@),
                rows == self.rows(),
                forall|n: int|
                    0 <= n < computed@.len() ==> models((#[trigger] computed@[n])@) == rows(keys[n]),
                forall|k: SK::Model| touched@.contains(k) <==> keys.contains(k),
                first_clash(claims(keys, rows)) is None,
                !owner_clash(claims(keys.take(j as int), rows), self.output().owners, keys),
            decreases computed@.len() - j,
        {
            let desired = &computed[j];
            let ghost sk = keys[j as int];
            let ghost names = entry_keys(models(desired@));
            let ghost before = claims(keys.take(j as int), rows);
            let ghost own = names.map_values(|o: OK::Model| (sk, o));
            let ghost owners = self.output().owners;
            let mut n: usize = 0;
            proof {
                assert(before + own.take(0) =~= before);
                let _ = computed@[j as int];
            }
            while n < desired.len()
                invariant
                    n <= desired@.len(),
                    j < impacted@.len(),
                    keys == models(impacted@),
                    rows == self.rows(),
                    owners == self.output().owners,
                    sk == keys[j as int],
                    names == entry_keys(models(desired@)),
                    names.len() == desired@.len(),
                    models(desired@) == rows(sk),
                    own == names.map_values(|o: OK::Model| (sk, o)),
                    before == claims(keys.take(j as int), rows),
                    forall|k: SK::Model| touched@.contains(k) <==> keys.contains(k),
                    first_clash(claims(keys, rows)) is None,
                    !owner_clash(before + own.take(n as int), owners, keys),
                decreases desired@.len() - n,
            {
                let ghost o = names[n as int];
                let ghost made = before + own.take(n as int);
                let ghost more = before + own.take(n + 1);
                proof {
                    assert(more =~= made.push((sk, o)));
                    claims_prefix(keys, rows, j as int, n as int);
                }
                match self.output_owners.get(&desired[n].0) {
                    Some(owner) => {
                        if !owner.equals(&impacted[j]) && !touched.contains(owner) {
                            proof {
                                let at = made.len() as int;
                                all_rows_place(keys, rows, j as int, n as int);
                                claims_rows(keys.take(j as int), rows);
                                assert(claims(keys, rows)[at] == (sk, o));
                                assert(owners.contains_key(claims(keys, rows)[at].1));
                            }
                            return Err(OutputCollision::ExistingSourceRow);
                        }
                    },
                    None => {},
                }
                proof {
                    assert(!owner_clash(more, owners, keys)) by {
                        if owner_clash(more, owners, keys) {
                            let x = choose|x: int|
                                0 <= x < more.len() && owners.contains_key((#[trigger] more[x]).1)
                                    && owners[more[x].1] != more[x].0 && !keys.contains(
                                    owners[more[x].1],
                                );
                            if x < made.len() {
                                assert(made[x] == more[x]);
                            }
                        }
                    }
                }
                n += 1;
            }
            proof {
                assert(own.take(n as int) =~= own);
                assert(keys.take(j + 1).drop_last() =~= keys.take(j as int));
                assert(keys.take(j + 1).last() == sk);
                assert(claims(keys.take(j + 1), rows) =~= before + own);
            }
            j += 1;
        }
        assert(keys.take(j as int) =~= keys);
        Ok(computed)
    }

    /// Brings the output of touched source keys up to date, and tells the changes. Where two source
    /// rows claim one output key, the output stays as it is.
    fn recompute_impacted(&mut self, impacted: &Vec<SK>) -> (result: Result<
        Vec<MapDiff<OK, OV>>,
        OutputCollision,
    >)
        requires
            old(self).wf(),
            models(impacted@).no_duplicates(),
        ensures
            final(self).wf(),
            final(self).source() == old(self).source(),
            final(self).order() == old(self).order(),
            final(self).compute() == old(self).compute(),
            match result {
                Ok(changes) => {
                    &&& collision(models(impacted@), old(self).rows(), old(self).output().owners) is None
                    &&& final(self).output() == old(self).output().give(
                        models(impacted@),
                        old(self).rows(),
                    )
                    &&& flat(changes@)
                    &&& steps_of(changes@) == old(self).output().told(
                        models(impacted@),
                        old(self).rows(),
                    )
                },
                Err(clash) => {
                    &&& collision(models(impacted@), old(self).rows(), old(self).output().owners)
                        == Some(clash)
                    &&& final(self).output() == old(self).output()
                },
            },
    {
        let computed = match self.compute_claims(impacted) {
            Ok(computed) => computed,
            Err(clash) => {
                return Err(clash);
            },
        };
        let ghost keys = models(impacted@);
        let ghost rows = self.rows();
        let ghost start = self.output();
        let ghost none: Map<OK::Model, OV::Model> = Map::empty();
        let mut changes: Vec<MapDiff<OK, OV>> = Vec::new();
        let mut i: usize = 0;
        proof {
            assert(keys.take(0) =~= Seq::empty());
            assert(without_keys(start.owners, Seq::empty()) =~= start.owners);
            assert(not_given(start.owned, keys.take(0)) =~= start.owned);
        }
        while i < impacted.len()
            invariant
                i <= impacted@.len(),
                keys == models(impacted@),
                keys.no_duplicates(),
                rows == old(self).rows(),
                start == old(self).output(),
                none == Map::<OK::Model, OV::Model>::empty(),
                computed@.len() == impacted@.len(),
                forall|n: int|
                    0 <= n < computed@.len() ==> models((#[trigger] computed@[n])@) == rows(keys[n]),
                self.wf(),
                self.source() == old(self).source(),
                self.order() == old(self).order(),
                self.compute() == old(self).compute(),
                self.output().owned == not_given(start.owned, keys.take(i as int)),
                self.output().owners == without_keys(
                    start.owners,
                    start.stale(keys.take(i as int), rows),
                ),
                self.output().cache == put_all(
                    start.cache,
                    start.stale(keys.take(i as int), rows),
                    none,
                ),
                flat(changes@),
                steps_of(changes@) == delta(
                    start.cache,
                    start.stale(keys.take(i as int), rows),
                    none,
                ),
            decreases impacted@.len() - i,
        {
            let ghost sk = keys[i as int];
            let ghost gone = start.stale(keys.take(i as int), rows);
            let ghost names = entry_keys(rows(sk));
            let ghost absent = crate::join_runtime::rows::absent_keys(rows(sk));
            let ghost current = start.keys_of(sk);
            proof {
                let _ = computed@[i as int];
                assert(!keys.take(i as int).contains(sk));
                assert(keys.take(i + 1).drop_last() =~= keys.take(i as int));
                assert(keys.take(i + 1).last() == sk);
            }
            let mut desired_keys: FxSet<OK> = FxSet::new();
            let desired = &computed[i];
            let mut n: usize = 0;
            while n < desired.len()
                invariant
                    n <= desired@.len(),
                    names == entry_keys(models(desired@)),
                    names.len() == desired@.len(),
                    forall|o: OK::Model|
                        desired_keys@.contains(o) <==> #[trigger] names.take(n as int).contains(o),
                decreases desired@.len() - n,
            {
                proof {
                    let part = names.take(n as int);
                    let o = names[n as int];
                    assert(names.take(n + 1) =~= part.push(o));
                    assert forall|x: OK::Model| #[trigger] names.take(n + 1).contains(x)
                        <==> part.contains(x) || x == o by {
                        if part.contains(x) {
                            let m = choose|m: int| 0 <= m < part.len() && part[m] == x;
                            assert(part.push(o)[m] == x);
                        }
                        assert(part.push(o)[part.len() as int] == o);
                    }
                }
                desired_keys.insert(desired[n].0.clone_value());
                n += 1;
            }
            assert(names.take(n as int) =~= names);
            let previous: Vec<OK> = match self.source_output_keys.remove(&impacted[i]) {
                Some(previous) => previous,
                None => Vec::new(),
            };
            proof {
                assert(models(previous@) =~= current);
                assert(not_given(start.owned, keys.take(i as int)).remove(sk) =~= not_given(
                    start.owned,
                    keys.take(i + 1),
                )) by {
                    not_given_next(start.owned, keys, i as int);
                }
            }
            let mut m: usize = 0;
            proof {
                assert(current.take(0) =~= Seq::empty());
                assert(kept(current.take(0), absent) =~= Seq::empty());
                assert(gone + Seq::empty() =~= gone);
            }
            while m < previous.len()
                invariant
                    m <= previous@.len(),
                    current == models(previous@),
                    absent == crate::join_runtime::rows::absent_keys(rows(sk)),
                    names == entry_keys(rows(sk)),
                    forall|o: OK::Model| desired_keys@.contains(o) <==> names.contains(o),
                    none == Map::<OK::Model, OV::Model>::empty(),
                    self.wf(),
                    self.source() == old(self).source(),
                    self.order() == old(self).order(),
                    self.compute() == old(self).compute(),
                    self.output().owned == not_given(start.owned, keys.take(i + 1)),
                    self.output().owners == without_keys(
                        start.owners,
                        gone + kept(current.take(m as int), absent),
                    ),
                    self.output().cache == put_all(
                        start.cache,
                        gone + kept(current.take(m as int), absent),
                        none,
                    ),
                    flat(changes@),
                    steps_of(changes@) == delta(
                        start.cache,
                        gone + kept(current.take(m as int), absent),
                        none,
                    ),
                decreases previous@.len() - m,
            {
                let stale_key = &previous[m];
                let ghost o = stale_key.model();
                let ghost part = gone + kept(current.take(m as int), absent);
                proof {
                    assert(current.take(m + 1).drop_last() =~= current.take(m as int));
                    assert(current.take(m + 1).last() == o);
                }
                if !desired_keys.contains(stale_key) {
                    proof {
                        let next = gone + kept(current.take(m + 1), absent);
                        assert(next =~= part.push(o));
                        assert(next.drop_last() =~= part);
                        assert(next.last() == o);
                        assert(lookup(none, o) == None::<OV::Model>);
                        assert(without_keys(start.owners, part).remove(o) =~= without_keys(
                            start.owners,
                            next,
                        )) by {
                            assert forall|x: OK::Model| next.contains(x) <==> part.contains(x) || x == o by {
                                if part.contains(x) {
                                    let y = choose|y: int| 0 <= y < part.len() && part[y] == x;
                                    assert(next[y] == x);
                                }
                                assert(next[part.len() as int] == o);
                                if next.contains(x) {
                                    let y = choose|y: int| 0 <= y < next.len() && next[y] == x;
                                    if y < part.len() {
                                        assert(part[y] == x);
                                    }
                                }
                            }
                        }
                    }
                    self.output_owners.remove(stale_key);
                    commit_keyed_value(
                        &mut self.output_cache,
                        stale_key.clone_value(),
                        None,
                        &mut changes,
                    );
                }
                m += 1;
            }
            proof {
                assert(current.take(m as int) =~= current);
                assert(start.stale(keys.take(i + 1), rows) == gone + stale_keys(current, rows(sk)));
            }
            i += 1;
        }
        assert(keys.take(i as int) =~= keys);
        let ghost gone = start.stale(keys, rows);
        let ghost cache1 = put_all(start.cache, gone, none);
        let ghost owners1 = without_keys(start.owners, gone);
        let ghost given = all_rows(keys, rows);
        let ghost want = entries_map(given);
        let ghost told1 = delta(start.cache, gone, none);
        let mut j: usize = 0;
        proof {
            assert(keys.take(0) =~= Seq::empty());
            assert(entry_keys(all_rows(keys.take(0), rows)) =~= Seq::empty());
            assert(told1 + Seq::empty() =~= told1);
            given_owned_none(start.owned, keys, rows);
        }
        while j < impacted.len()
            invariant
                j <= impacted@.len(),
                keys == models(impacted@),
                keys.no_duplicates(),
                rows == old(self).rows(),
                given == all_rows(keys, rows),
                want == entries_map(given),
                first_clash(claims(keys, rows)) is None,
                computed@.len() == impacted@.len(),
                forall|n: int|
                    0 <= n < computed@.len() ==> models((#[trigger] computed@[n])@) == rows(keys[n]),
                self.wf(),
                self.source() == old(self).source(),
                self.order() == old(self).order(),
                self.compute() == old(self).compute(),
                self.output().owned == given_owned(start.owned, keys, rows, j as int),
                self.output().owners == put_claims(owners1, claims(keys.take(j as int), rows)),
                self.output().cache == put_all(
                    cache1,
                    entry_keys(all_rows(keys.take(j as int), rows)),
                    want,
                ),
                flat(changes@),
                steps_of(changes@) == told1 + delta(
                    cache1,
                    entry_keys(all_rows(keys.take(j as int), rows)),
                    want,
                ),
            decreases impacted@.len() - j,
        {
            let ghost sk = keys[j as int];
            let desired = &computed[j];
            let ghost own = models(desired@);
            let ghost names = entry_keys(own);
            let ghost before = entry_keys(all_rows(keys.take(j as int), rows));
            let ghost made = claims(keys.take(j as int), rows);
            let ghost mine = names.map_values(|o: OK::Model| (sk, o));
            let mut list: Vec<OK> = Vec::new();
            let mut n: usize = 0;
            proof {
                let _ = computed@[j as int];
                assert(keys.take(j + 1).drop_last() =~= keys.take(j as int));
                assert(keys.take(j + 1).last() == sk);
                assert(before + names.take(0) =~= before);
                assert(made + mine.take(0) =~= made);
                assert(models(list@) =~= names.take(0));
            }
            while n < desired.len()
                invariant
                    n <= desired@.len(),
                    j < impacted@.len(),
                    keys == models(impacted@),
                    sk == keys[j as int],
                    own == models(desired@),
                    own == rows(sk),
                    names == entry_keys(own),
                    names.len() == desired@.len(),
                    mine == names.map_values(|o: OK::Model| (sk, o)),
                    given == all_rows(keys, rows),
                    want == entries_map(given),
                    first_clash(claims(keys, rows)) is None,
                    self.wf(),
                    self.source() == old(self).source(),
                    self.order() == old(self).order(),
                    self.compute() == old(self).compute(),
                    self.output().owned == given_owned(start.owned, keys, rows, j as int),
                    self.output().owners == put_claims(owners1, made + mine.take(n as int)),
                    self.output().cache == put_all(cache1, before + names.take(n as int), want),
                    flat(changes@),
                    steps_of(changes@) == told1 + delta(cache1, before + names.take(n as int), want),
                    models(list@) == names.take(n as int),
                decreases desired@.len() - n,
            {
                let ghost o = names[n as int];
                let ghost part = before + names.take(n as int);
                let ghost claims_sofar = made + mine.take(n as int);
                let output_key = &desired[n].0;
                proof {
                    let next = before + names.take(n + 1);
                    assert(next.drop_last() =~= part);
                    assert(next.last() == o);
                    let more = made + mine.take(n + 1);
                    assert(more.drop_last() =~= claims_sofar);
                    assert(more.last() == (sk, o));
                    given_value(keys, rows, j as int, n as int);
                    let last = commit_change(o, lookup(self.output_cache@, o), lookup(want, o));
                    assert((told1 + delta(cache1, part, want)) + last =~= told1 + (delta(
                        cache1,
                        part,
                        want,
                    ) + last));
                    assert(desired@[n as int].model() == own[n as int]);
                }
                self.output_owners.insert(output_key.clone_value(), impacted[j].clone_value());
                commit_keyed_value(
                    &mut self.output_cache,
                    output_key.clone_value(),
                    Some(desired[n].1.clone_value()),
                    &mut changes,
                );
                let copy = output_key.clone_value();
                proof {
                    models_push(list@, copy);
                    assert(names.take(n as int).push(o) =~= names.take(n + 1));
                }
                list.push(copy);
                n += 1;
            }
            proof {
                assert(names.take(n as int) =~= names);
                assert(mine.take(n as int) =~= mine);
                assert(claims(keys.take(j + 1), rows) =~= made + mine);
                assert(entry_keys(all_rows(keys.take(j + 1), rows)) =~= before + names);
                given_owned_next(start.owned, keys, rows, j as int);
            }
            if list.len() > 0 {
                self.source_output_keys.insert(impacted[j].clone_value(), list);
            }
            j += 1;
        }
        proof {
            assert(keys.take(j as int) =~= keys);
            given_owned_all(start, keys, rows);
        }
        Ok(changes)
    }

    /// Follows a diff of the source, and tells how the output changes. Where two source rows claim
    /// one output key, the output stays as it is.
    pub fn changes_of(&mut self, diff: &MapDiff<SK, SV>) -> (result: Result<
        Vec<MapDiff<OK, OV>>,
        OutputCollision,
    >)
        requires
            old(self).wf(),
        ensures
            final(self).wf(),
            final(self).source() == replay(old(self).source(), diff.steps()),
            final(self).order() == source_order(old(self).order(), diff.steps()),
            final(self).compute() == old(self).compute(),
            ({
                let keys = event_keys(old(self).order(), diff.steps(), Seq::empty());
                let clash = collision(keys, final(self).rows(), old(self).output().owners);
                match result {
                    Ok(changes) => {
                        &&& clash is None
                        &&& final(self).output() == old(self).output().give(keys, final(self).rows())
                        &&& flat(changes@)
                        &&& steps_of(changes@) == old(self).output().told(keys, final(self).rows())
                        &&& fits_all(old(self).output().cache, steps_of(changes@))
                        &&& replay(old(self).output().cache, steps_of(changes@)) == final(self).output().cache
                    },
                    Err(error) => {
                        &&& clash == Some(error)
                        &&& final(self).output() == old(self).output()
                    },
                }
            }),
    {
        let impacted = self.apply_source_diff(diff);
        proof {
            old(self).output().told_replays(models(impacted@), self.rows());
        }
        self.recompute_impacted(&impacted)
    }

    /// Follows a diff of the source, and tells how the output changes as one batch, or not at all
    /// where nothing changes. Where two source rows claim one output key, the output stays as it is.
    pub fn apply(&mut self, diff: &MapDiff<SK, SV>) -> (result: Result<
        Option<MapDiff<OK, OV>>,
        OutputCollision,
    >)
        requires
            old(self).wf(),
        ensures
            final(self).wf(),
            final(self).source() == replay(old(self).source(), diff.steps()),
            final(self).order() == source_order(old(self).order(), diff.steps()),
            final(self).compute() == old(self).compute(),
            ({
                let keys = event_keys(old(self).order(), diff.steps(), Seq::empty());
                let clash = old(self).clash(diff.steps());
                let told = old(self).output().told(keys, final(self).rows());
                match result {
                    Ok(emitted) => {
                        &&& clash is None
                        &&& final(self).output() == old(self).output().give(keys, final(self).rows())
                        &&& emits(emitted, told)
                        &&& fits_all(old(self).output().cache, told)
                        &&& replay(old(self).output().cache, told) == final(self).output().cache
                    },
                    Err(error) => {
                        &&& clash == Some(error)
                        &&& final(self).output() == old(self).output()
                    },
                }
            }),
            old(self).faithful() && result is Ok ==> final(self).faithful(),
    {
        proof {
            if self.faithful() && self.clash(diff.steps()) is None {
                projection_follows_source(
                    self.output(),
                    self.order(),
                    self.source(),
                    diff.steps(),
                    row_computation::<SK, SV, OK, OV, FO>(self.compute()),
                );
            }
        }
        match self.changes_of(diff) {
            Ok(changes) => Ok(batch_of(changes)),
            Err(error) => Err(error),
        }
    }
}

/// A projection of a source without rows.
pub fn install_map_runtime_via_query<
    SK: MapKey,
    SV: CellValue,
    OK: MapKey,
    OV: CellValue,
    FO: RowFn<SK, SV, Vec<(OK, OV)>>,
>(compute_rows: FO) -> (runtime: MapRuntime<SK, SV, OK, OV, FO>)
    requires
        pure2::<SK, SV, Vec<(OK, OV)>, FO>(compute_rows),
    ensures
        runtime.wf(),
        runtime.compute() == compute_rows,
        runtime.source() == Map::<SK::Model, SV::Model>::empty(),
        runtime.order() == Seq::<SK::Model>::empty(),
        runtime.output().owned == Map::<SK::Model, Seq<OK::Model>>::empty(),
        runtime.output().owners == Map::<OK::Model, SK::Model>::empty(),
        runtime.output().cache == Map::<OK::Model, OV::Model>::empty(),
        runtime.faithful(),
{
    let runtime = MapRuntime {
        source_rows: FxMap::new(),
        source_order: OrderedSet::new(),
        source_output_keys: FxMap::new(),
        output_owners: FxMap::new(),
        output_cache: FxMap::new(),
        compute_rows,
    };
    proof {
        let rows = runtime.rows();
        assert forall|k: SK::Model|
            #![trigger runtime.output().keys_of(k)]
            runtime.output().keys_of(k) == entry_keys(rows(k)) && runtime.output().keys_of(
                k,
            ).no_duplicates() by {
            assert(rows(k) =~= Seq::empty());
            assert(entry_keys(rows(k)) =~= Seq::empty());
        }
        assert forall|k: SK::Model, o: OK::Model|
            #![trigger entry_keys(rows(k)).contains(o)]
            entry_keys(rows(k)).contains(o) <==> lookup(runtime.output().owners, o) == Some(k) by {
            assert(entry_keys(rows(k)) =~= Seq::empty());
        }
    }
    runtime
}

/// Each claimed output key has its claimant.
pub open spec fn grants<SK, OK>(made: Seq<(SK, OK)>, owners: Map<OK, SK>) -> bool {
    &&& forall|o: OK| #[trigger] owners.contains_key(o) <==> claimed(made, o)
    &&& forall|o: OK| #[trigger] owners.contains_key(o) ==> owners[o] == claimant(made, o)
    &&& forall|i: int, j: int|
        0 <= i < made.len() && 0 <= j < made.len() && (#[trigger] made[i]).1 == (
        #[trigger] made[j]).1 ==> i == j
}

proof fn grants_push<SK, OK>(made: Seq<(SK, OK)>, owners: Map<OK, SK>, claim: (SK, OK))
    requires
        grants(made, owners),
        !claimed(made, claim.1),
    ensures
        grants(made.push(claim), owners.insert(claim.1, claim.0)),
        first_clash(made.push(claim)) == first_clash(made),
{
    let more = made.push(claim);
    let m = owners.insert(claim.1, claim.0);
    assert(more.drop_last() =~= made);
    assert forall|i: int, j: int|
        0 <= i < more.len() && 0 <= j < more.len() && (#[trigger] more[i]).1 == (#[trigger] more[j]).1
            implies i == j by {
        if i < made.len() && j < made.len() {
            assert(more[i] == made[i] && more[j] == made[j]);
        } else if i < made.len() {
            assert(made[i].1 == claim.1);
        } else if j < made.len() {
            assert(made[j].1 == claim.1);
        }
    }
    assert forall|o: OK| #[trigger] m.contains_key(o) <==> claimed(more, o) by {
        if claimed(made, o) {
            let i = choose|i: int| 0 <= i < made.len() && (#[trigger] made[i]).1 == o;
            assert(more[i].1 == o);
        }
        if claimed(more, o) && o != claim.1 {
            let i = choose|i: int| 0 <= i < more.len() && (#[trigger] more[i]).1 == o;
            assert(made[i].1 == o);
        }
        assert(more[made.len() as int] == claim);
    }
    assert forall|o: OK| #[trigger] m.contains_key(o) implies m[o] == claimant(more, o) by {
        assert(claimed(more, o));
        let i = choose|i: int| 0 <= i < more.len() && (#[trigger] more[i]).1 == o;
        if o == claim.1 {
            assert(more[made.len() as int].1 == o);
            assert(i == made.len());
        } else {
            assert(i < made.len());
            assert(made[i] == more[i]);
            assert(claimed(made, o));
            let j = choose|j: int| 0 <= j < made.len() && (#[trigger] made[j]).1 == o;
            assert(made[j].1 == made[i].1);
        }
    }
}

/// The claims of the first source keys, and the first of the next, are the first claims.
proof fn claims_prefix<SK, OK, OV>(
    keys: Seq<SK>,
    rows: spec_fn(SK) -> Seq<(OK, OV)>,
    i: int,
    n: int,
)
    requires
        0 <= i < keys.len(),
        0 <= n < rows(keys[i]).len(),
    ensures
        ({
            let own = entry_keys(rows(keys[i])).map_values(|o: OK| (keys[i], o));
            let part = claims(keys.take(i), rows) + own.take(n + 1);
            &&& part.len() <= claims(keys, rows).len()
            &&& part =~= claims(keys, rows).take(part.len() as int)
        }),
    decreases keys.len(),
{
    let own = entry_keys(rows(keys[i])).map_values(|o: OK| (keys[i], o));
    let part = claims(keys.take(i), rows) + own.take(n + 1);
    let rest = keys.drop_last();
    if i == keys.len() - 1 {
        assert(keys.take(i) =~= rest);
        assert(claims(keys, rows) == claims(rest, rows) + entry_keys(rows(keys.last())).map_values(
            |o: OK| (keys.last(), o),
        ));
        assert(entry_keys(rows(keys.last())).map_values(|o: OK| (keys.last(), o)) =~= own);
        assert(part =~= claims(keys, rows).take(part.len() as int));
    } else {
        claims_prefix(rest, rows, i, n);
        assert(rest.take(i) =~= keys.take(i));
        assert(part =~= claims(rest, rows).take(part.len() as int));
        assert(claims(keys, rows).take(part.len() as int) =~= claims(rest, rows).take(
            part.len() as int,
        ));
    }
}

/// A clash among the first claims is a clash among all.
proof fn clash_stays<SK, OK>(part: Seq<(SK, OK)>, all: Seq<(SK, OK)>)
    requires
        part.len() <= all.len(),
        part == all.take(part.len() as int),
        first_clash(part) is Some,
    ensures
        first_clash(all) == first_clash(part),
    decreases all.len(),
{
    if part.len() == all.len() {
        assert(part =~= all);
    } else {
        assert(all.drop_last().take(part.len() as int) =~= part);
        clash_stays(part, all.drop_last());
    }
}

/// The output keys of the source keys that an event does not touch.
pub open spec fn not_given<SK, OK>(owned: Map<SK, Seq<OK>>, keys: Seq<SK>) -> Map<SK, Seq<OK>> {
    Map::new(|k: SK| owned.contains_key(k) && !keys.contains(k), |k: SK| owned[k])
}

proof fn take_contains<SK>(keys: Seq<SK>, i: int)
    requires
        0 <= i < keys.len(),
    ensures
        forall|k: SK| keys.take(i + 1).contains(k) <==> keys.take(i).contains(k) || k == keys[i],
{
    let a = keys.take(i);
    let b = keys.take(i + 1);
    assert forall|k: SK| b.contains(k) <==> a.contains(k) || k == keys[i] by {
        if a.contains(k) {
            let n = choose|n: int| 0 <= n < a.len() && a[n] == k;
            assert(b[n] == k);
        }
        assert(b[i] == keys[i]);
        if b.contains(k) {
            let n = choose|n: int| 0 <= n < b.len() && b[n] == k;
            if n < i {
                assert(a[n] == k);
            }
        }
    }
}

proof fn not_given_next<SK, OK>(owned: Map<SK, Seq<OK>>, keys: Seq<SK>, i: int)
    requires
        0 <= i < keys.len(),
    ensures
        not_given(owned, keys.take(i)).remove(keys[i]) == not_given(owned, keys.take(i + 1)),
{
    take_contains(keys, i);
    assert(not_given(owned, keys.take(i)).remove(keys[i]) =~= not_given(owned, keys.take(i + 1)));
}

/// The output keys of the source keys once the first touched ones have given their rows.
pub open spec fn given_owned<SK, OK, OV>(
    owned: Map<SK, Seq<OK>>,
    keys: Seq<SK>,
    rows: spec_fn(SK) -> Seq<(OK, OV)>,
    i: int,
) -> Map<SK, Seq<OK>> {
    Map::new(
        |k: SK|
            if keys.contains(k) {
                keys.take(i).contains(k) && rows(k).len() > 0
            } else {
                owned.contains_key(k)
            },
        |k: SK|
            if keys.contains(k) {
                entry_keys(rows(k))
            } else {
                owned[k]
            },
    )
}

proof fn given_owned_none<SK, OK, OV>(
    owned: Map<SK, Seq<OK>>,
    keys: Seq<SK>,
    rows: spec_fn(SK) -> Seq<(OK, OV)>,
)
    ensures
        given_owned(owned, keys, rows, 0) == not_given(owned, keys),
{
    assert(keys.take(0) =~= Seq::empty());
    assert(given_owned(owned, keys, rows, 0) =~= not_given(owned, keys));
}

proof fn given_owned_next<SK, OK, OV>(
    owned: Map<SK, Seq<OK>>,
    keys: Seq<SK>,
    rows: spec_fn(SK) -> Seq<(OK, OV)>,
    i: int,
)
    requires
        keys.no_duplicates(),
        0 <= i < keys.len(),
    ensures
        given_owned(owned, keys, rows, i + 1) == if rows(keys[i]).len() > 0 {
            given_owned(owned, keys, rows, i).insert(keys[i], entry_keys(rows(keys[i])))
        } else {
            given_owned(owned, keys, rows, i)
        },
{
    take_contains(keys, i);
    assert(keys.contains(keys[i]));
    if rows(keys[i]).len() > 0 {
        let a = given_owned(owned, keys, rows, i + 1);
        let b = given_owned(owned, keys, rows, i).insert(keys[i], entry_keys(rows(keys[i])));
        assert forall|k: SK| #[trigger] a.contains_key(k) == b.contains_key(k) by {
            assert(keys.take(i + 1).contains(k) <==> keys.take(i).contains(k) || k == keys[i]);
        }
        assert forall|k: SK| #[trigger] a.contains_key(k) implies a[k] == b[k] by {}
        assert(a =~= b);
    } else {
        assert(given_owned(owned, keys, rows, i + 1) =~= given_owned(owned, keys, rows, i));
    }
}

proof fn given_owned_all<SK, OK, OV>(
    start: Projected<SK, OK, OV>,
    keys: Seq<SK>,
    rows: spec_fn(SK) -> Seq<(OK, OV)>,
)
    ensures
        given_owned(start.owned, keys, rows, keys.len() as int) == start.next_owned(keys, rows),
{
    assert(keys.take(keys.len() as int) =~= keys);
    assert(given_owned(start.owned, keys, rows, keys.len() as int) =~= start.next_owned(keys, rows));
}

/// The claimed output keys are the keys of the rows that are given.
proof fn claims_rows<SK, OK, OV>(keys: Seq<SK>, rows: spec_fn(SK) -> Seq<(OK, OV)>)
    ensures
        claims(keys, rows).len() == all_rows(keys, rows).len(),
        forall|i: int|
            0 <= i < claims(keys, rows).len() ==> (#[trigger] claims(keys, rows)[i]).1 == all_rows(
                keys,
                rows,
            )[i].0,
    decreases keys.len(),
{
    if keys.len() > 0 {
        claims_rows(keys.drop_last(), rows);
    }
}

/// Without a clash each output key is claimed once.
proof fn no_clash_distinct<SK, OK>(made: Seq<(SK, OK)>)
    requires
        first_clash(made) is None,
    ensures
        forall|i: int, j: int|
            0 <= i < j < made.len() ==> (#[trigger] made[i]).1 != (#[trigger] made[j]).1,
    decreases made.len(),
{
    if made.len() > 0 {
        let rest = made.drop_last();
        no_clash_distinct(rest);
        assert forall|i: int, j: int| 0 <= i < j < made.len() implies (#[trigger] made[i]).1 != (
        #[trigger] made[j]).1 by {
            if j < rest.len() {
                assert(rest[i] == made[i] && rest[j] == made[j]);
            } else {
                assert(rest[i] == made[i]);
                assert(made[j] == made.last());
                if made[i].1 == made[j].1 {
                    assert(claimed(rest, made.last().1));
                }
            }
        }
    }
}

/// An entry whose key no later entry has is what the map of the entries holds.
pub proof fn entry_value<K, V>(entries: Seq<(K, V)>, i: int)
    requires
        0 <= i < entries.len(),
        forall|n: int| i < n < entries.len() ==> (#[trigger] entries[n]).0 != entries[i].0,
    ensures
        lookup(entries_map(entries), entries[i].0) == Some(entries[i].1),
    decreases entries.len(),
{
    if i < entries.len() - 1 {
        let rest = entries.drop_last();
        assert forall|n: int| i < n < rest.len() implies (#[trigger] rest[n]).0 != rest[i].0 by {
            assert(rest[n] == entries[n]);
        }
        entry_value(rest, i);
        assert(entries[entries.len() - 1].0 != entries[i].0);
    }
}

/// The place of a row of a source key among all rows.
proof fn all_rows_place<SK, OK, OV>(
    keys: Seq<SK>,
    rows: spec_fn(SK) -> Seq<(OK, OV)>,
    j: int,
    n: int,
)
    requires
        0 <= j < keys.len(),
        0 <= n < rows(keys[j]).len(),
    ensures
        ({
            let at = all_rows(keys.take(j), rows).len() + n;
            &&& 0 <= at < all_rows(keys, rows).len()
            &&& all_rows(keys, rows)[at] == rows(keys[j])[n]
            &&& claims(keys, rows).len() == all_rows(keys, rows).len()
            &&& claims(keys, rows)[at] == (keys[j], rows(keys[j])[n].0)
        }),
    decreases keys.len(),
{
    let rest = keys.drop_last();
    claims_rows(keys, rows);
    claims_rows(rest, rows);
    if j < keys.len() - 1 {
        assert(rest.take(j) =~= keys.take(j));
        all_rows_place(rest, rows, j, n);
    } else {
        assert(keys.take(j) =~= rest);
        let at = all_rows(rest, rows).len() + n;
        assert(claims(keys, rows)[at] == (keys.last(), entry_keys(rows(keys.last()))[n]));
    }
}

/// A row that is given is what the map of all given rows holds.
proof fn given_value<SK, OK, OV>(
    keys: Seq<SK>,
    rows: spec_fn(SK) -> Seq<(OK, OV)>,
    j: int,
    n: int,
)
    requires
        0 <= j < keys.len(),
        0 <= n < rows(keys[j]).len(),
        first_clash(claims(keys, rows)) is None,
    ensures
        lookup(entries_map(all_rows(keys, rows)), rows(keys[j])[n].0) == Some(rows(keys[j])[n].1),
{
    let given = all_rows(keys, rows);
    let made = claims(keys, rows);
    let at = all_rows(keys.take(j), rows).len() + n;
    all_rows_place(keys, rows, j, n);
    no_clash_distinct(made);
    claims_rows(keys, rows);
    assert forall|m: int| at < m < given.len() implies (#[trigger] given[m]).0 != given[at].0 by {
        assert(made[at].1 != made[m].1);
    }
    entry_value(given, at);
}

/// A claim is made by a touched source key for a row that it gives.
proof fn claims_made<SK, OK, OV>(keys: Seq<SK>, rows: spec_fn(SK) -> Seq<(OK, OV)>, k: SK, o: OK)
    ensures
        claims(keys, rows).contains((k, o)) <==> keys.contains(k) && entry_keys(rows(k)).contains(o),
    decreases keys.len(),
{
    if keys.len() > 0 {
        let rest = keys.drop_last();
        let last = keys.last();
        claims_made(rest, rows, k, o);
        let own = entry_keys(rows(last)).map_values(|x: OK| (last, x));
        let all = claims(keys, rows);
        assert(all == claims(rest, rows) + own);
        assert(keys[keys.len() - 1] == last);
        if rest.contains(k) {
            let i = choose|i: int| 0 <= i < rest.len() && rest[i] == k;
            assert(keys[i] == k);
        }
        if all.contains((k, o)) {
            let i = choose|i: int| 0 <= i < all.len() && all[i] == (k, o);
            if i < claims(rest, rows).len() {
                assert(claims(rest, rows)[i] == (k, o));
                assert(claims(rest, rows).contains((k, o)));
            } else {
                let n = i - claims(rest, rows).len();
                assert(own[n] == (k, o));
                assert(entry_keys(rows(last))[n] == o);
            }
        }
        if keys.contains(k) && entry_keys(rows(k)).contains(o) {
            if k == last {
                let names = entry_keys(rows(last));
                let n = choose|n: int| 0 <= n < names.len() && names[n] == o;
                assert(own[n] == (k, o));
                assert(all[claims(rest, rows).len() + n] == (k, o));
            } else {
                let i = choose|i: int| 0 <= i < keys.len() && keys[i] == k;
                assert(rest[i] == k);
                assert(claims(rest, rows).contains((k, o)));
                let made = claims(rest, rows);
                let n = choose|n: int| 0 <= n < made.len() && made[n] == (k, o);
                assert(all[n] == (k, o));
            }
        }
    }
}

/// The owner of an output key is its claimant, or else the owner that it had.
proof fn put_claims_lookup<SK, OK>(owners: Map<OK, SK>, made: Seq<(SK, OK)>, o: OK)
    requires
        forall|i: int, j: int|
            0 <= i < j < made.len() ==> (#[trigger] made[i]).1 != (#[trigger] made[j]).1,
    ensures
        forall|k: SK| #[trigger] made.contains((k, o)) ==> lookup(put_claims(owners, made), o) == Some(k),
        !claimed(made, o) ==> lookup(put_claims(owners, made), o) == lookup(owners, o),
        claimed(made, o) ==> exists|k: SK| #[trigger] made.contains((k, o)),
    decreases made.len(),
{
    if made.len() > 0 {
        let rest = made.drop_last();
        let last = made.last();
        assert forall|i: int, j: int| 0 <= i < j < rest.len() implies (#[trigger] rest[i]).1 != (
        #[trigger] rest[j]).1 by {
            assert(rest[i] == made[i] && rest[j] == made[j]);
        }
        put_claims_lookup(owners, rest, o);
        assert(made[made.len() - 1] == last);
        assert forall|k: SK| #[trigger] made.contains((k, o)) implies lookup(
            put_claims(owners, made),
            o,
        ) == Some(k) by {
            let i = choose|i: int| 0 <= i < made.len() && made[i] == (k, o);
            if i < rest.len() {
                assert(rest[i] == (k, o));
                assert(rest.contains((k, o)));
                assert(made[i].1 != made[made.len() - 1].1);
            }
        }
        if !claimed(made, o) {
            assert(made[made.len() - 1].1 != o);
            assert(!claimed(rest, o)) by {
                if claimed(rest, o) {
                    let i = choose|i: int| 0 <= i < rest.len() && (#[trigger] rest[i]).1 == o;
                    assert(made[i].1 == o);
                }
            }
        } else {
            let i = choose|i: int| 0 <= i < made.len() && (#[trigger] made[i]).1 == o;
            assert(made.contains((made[i].0, o)));
        }
    }
}

impl<SK, OK, OV> Projected<SK, OK, OV> {
    /// A stale output key was given by a touched source key that no longer gives it.
    proof fn stale_made(self, keys: Seq<SK>, rows: spec_fn(SK) -> Seq<(OK, OV)>, o: OK)
        ensures
            self.stale(keys, rows).contains(o) <==> exists|k: SK| #[trigger]
                keys.contains(k) && self.keys_of(k).contains(o) && !entry_keys(rows(k)).contains(o),
        decreases keys.len(),
    {
        if keys.len() > 0 {
            let rest = keys.drop_last();
            let last = keys.last();
            self.stale_made(rest, rows, o);
            let a = self.stale(rest, rows);
            let b = stale_keys(self.keys_of(last), rows(last));
            let all = self.stale(keys, rows);
            kept_contains(
                self.keys_of(last),
                crate::join_runtime::rows::absent_keys(rows(last)),
            );
            assert(all == a + b);
            assert(keys[keys.len() - 1] == last);
            assert(crate::join_runtime::rows::absent_keys(rows(last)).contains(o) <==> !entry_keys(
                rows(last),
            ).contains(o));
            if all.contains(o) {
                let i = choose|i: int| 0 <= i < all.len() && all[i] == o;
                if i < a.len() {
                    assert(a[i] == o);
                    assert(a.contains(o));
                    let k = choose|k: SK| #[trigger]
                        rest.contains(k) && self.keys_of(k).contains(o) && !entry_keys(
                            rows(k),
                        ).contains(o);
                    let n = choose|n: int| 0 <= n < rest.len() && rest[n] == k;
                    assert(keys[n] == k);
                    assert(keys.contains(k));
                } else {
                    assert(b[i - a.len()] == o);
                    assert(b.contains(o));
                    assert(keys.contains(last));
                }
            }
            if exists|k: SK| #[trigger]
                keys.contains(k) && self.keys_of(k).contains(o) && !entry_keys(rows(k)).contains(o) {
                let k = choose|k: SK| #[trigger]
                    keys.contains(k) && self.keys_of(k).contains(o) && !entry_keys(rows(k)).contains(o);
                if k == last {
                    assert(b.contains(o));
                    let n = choose|n: int| 0 <= n < b.len() && b[n] == o;
                    assert(all[a.len() + n] == o);
                } else {
                    let n = choose|n: int| 0 <= n < keys.len() && keys[n] == k;
                    assert(rest[n] == k);
                    assert(rest.contains(k));
                    assert(a.contains(o));
                    let m = choose|m: int| 0 <= m < a.len() && a[m] == o;
                    assert(all[m] == o);
                }
            }
        }
    }

    /// Where the touched source keys name every one that gives other rows than before, and no two
    /// source rows claim one output key, the output holds exactly the rows that are given now.
    pub proof fn give_holds(
        self,
        keys: Seq<SK>,
        before: spec_fn(SK) -> Seq<(OK, OV)>,
        after: spec_fn(SK) -> Seq<(OK, OV)>,
    )
        requires
            self.holds(before),
            keys.no_duplicates(),
            collision(keys, after, self.owners) is None,
            forall|k: SK| !keys.contains(k) ==> #[trigger] after(k) == before(k),
        ensures
            self.give(keys, after).holds(after),
    {
        let made = claims(keys, after);
        let stale = self.stale(keys, after);
        let given = all_rows(keys, after);
        let next = self.give(keys, after);
        let base = without_keys(self.owners, stale);
        no_clash_distinct(made);
        claims_rows(keys, after);
        assert forall|k: SK|
            #![trigger next.keys_of(k)]
            next.keys_of(k) == entry_keys(after(k)) && next.keys_of(k).no_duplicates() by {
            if keys.contains(k) {
                let j = choose|j: int| 0 <= j < keys.len() && keys[j] == k;
                assert(next.keys_of(k) =~= entry_keys(after(k)));
                let names = entry_keys(after(k));
                assert forall|a: int, b: int| 0 <= a < b < names.len() implies #[trigger] names[a]
                    != #[trigger] names[b] by {
                    all_rows_place(keys, after, j, a);
                    all_rows_place(keys, after, j, b);
                    let x = all_rows(keys.take(j), after).len() + a;
                    let y = all_rows(keys.take(j), after).len() + b;
                    assert(made[x].1 != made[y].1);
                }
            } else {
                assert(after(k) == before(k));
                assert(next.keys_of(k) == self.keys_of(k));
            }
        }
        assert forall|k: SK, o: OK|
            #![trigger entry_keys(after(k)).contains(o)]
            entry_keys(after(k)).contains(o) <==> lookup(next.owners, o) == Some(k) by {
            self.owner_follows(keys, before, after, k, o);
        }
        put_all_lookup(self.cache, stale, Map::empty());
        put_all_lookup(
            put_all(self.cache, stale, Map::empty()),
            entry_keys(given),
            entries_map(given),
        );
        assert forall|o: OK| #[trigger] lookup(next.cache, o) == match lookup(next.owners, o) {
            Some(k) => lookup(entries_map(after(k)), o),
            None => None,
        } by {
            put_claims_lookup(base, made, o);
            assert(lookup(Map::<OK, OV>::empty(), o) == None::<OV>);
            assert(entry_keys(given).contains(o) <==> claimed(made, o)) by {
                if entry_keys(given).contains(o) {
                    let i = choose|i: int| 0 <= i < given.len() && entry_keys(given)[i] == o;
                    assert(made[i].1 == o);
                }
                if claimed(made, o) {
                    let i = choose|i: int| 0 <= i < made.len() && (#[trigger] made[i]).1 == o;
                    assert(entry_keys(given)[i] == o);
                }
            }
            if claimed(made, o) {
                let k = choose|k: SK| #[trigger] made.contains((k, o));
                claims_made(keys, after, k, o);
                let j = choose|j: int| 0 <= j < keys.len() && keys[j] == k;
                let names = entry_keys(after(k));
                let n = choose|n: int| 0 <= n < names.len() && names[n] == o;
                given_value(keys, after, j, n);
                assert(next.keys_of(k).no_duplicates());
                assert forall|m: int| n < m < after(k).len() implies (#[trigger] after(k)[m]).0
                    != after(k)[n].0 by {
                    assert(names[m] != names[n]);
                }
                entry_value(after(k), n);
            } else if stale.contains(o) {
                assert(lookup(base, o) == None::<SK>);
            } else {
                assert(lookup(base, o) == lookup(self.owners, o));
                match lookup(self.owners, o) {
                    Some(k) => {
                        assert(entry_keys(before(k)).contains(o));
                        assert(self.keys_of(k).contains(o));
                        if keys.contains(k) {
                            self.stale_made(keys, after, o);
                            claims_made(keys, after, k, o);
                            assert(entry_keys(after(k)).contains(o));
                            let i = choose|i: int| 0 <= i < made.len() && made[i] == (k, o);
                            assert(made[i].1 == o);
                        }
                        assert(after(k) == before(k));
                    },
                    None => {},
                }
            }
        }
    }

    proof fn owner_follows(
        self,
        keys: Seq<SK>,
        before: spec_fn(SK) -> Seq<(OK, OV)>,
        after: spec_fn(SK) -> Seq<(OK, OV)>,
        k: SK,
        o: OK,
    )
        requires
            self.holds(before),
            keys.no_duplicates(),
            collision(keys, after, self.owners) is None,
            forall|x: SK| !keys.contains(x) ==> #[trigger] after(x) == before(x),
        ensures
            entry_keys(after(k)).contains(o) <==> lookup(self.give(keys, after).owners, o) == Some(k),
    {
        let made = claims(keys, after);
        let stale = self.stale(keys, after);
        let base = without_keys(self.owners, stale);
        no_clash_distinct(made);
        put_claims_lookup(base, made, o);
        self.stale_made(keys, after, o);
        claims_made(keys, after, k, o);
        let owner = lookup(self.give(keys, after).owners, o);
        if entry_keys(after(k)).contains(o) {
            if keys.contains(k) {
                assert(made.contains((k, o)));
            } else {
                assert(after(k) == before(k));
                assert(lookup(self.owners, o) == Some(k));
                assert(!stale.contains(o)) by {
                    if stale.contains(o) {
                        let x = choose|x: SK| #[trigger]
                            keys.contains(x) && self.keys_of(x).contains(o) && !entry_keys(
                                after(x),
                            ).contains(o);
                        assert(entry_keys(before(x)).contains(o));
                        assert(lookup(self.owners, o) == Some(x));
                    }
                }
                assert(!claimed(made, o)) by {
                    if claimed(made, o) {
                        let i = choose|i: int| 0 <= i < made.len() && (#[trigger] made[i]).1 == o;
                        let x = made[i].0;
                        claims_made(keys, after, x, o);
                        assert(made.contains((x, o)));
                        assert(self.owners.contains_key(made[i].1));
                        assert(owner_clash(made, self.owners, keys));
                    }
                }
            }
        }
        if owner == Some(k) {
            if claimed(made, o) {
                let x = choose|x: SK| #[trigger] made.contains((x, o));
                assert(x == k);
            } else {
                assert(lookup(base, o) == Some(k));
                assert(lookup(self.owners, o) == Some(k));
                assert(entry_keys(before(k)).contains(o));
                assert(self.keys_of(k).contains(o));
                if keys.contains(k) {
                    if !entry_keys(after(k)).contains(o) {
                        assert(stale.contains(o));
                    }
                } else {
                    assert(after(k) == before(k));
                }
            }
        }
    }
}

/// The order names each key of the source once.
pub open spec fn source_listed<SK, SV>(order: Seq<SK>, source: Map<SK, SV>) -> bool {
    &&& order.no_duplicates()
    &&& forall|k: SK| #[trigger] source.contains_key(k) <==> order.contains(k)
}

/// The order keeps naming each key of the source once, and the event names every key whose row it
/// changes.
pub proof fn event_keys_cover<SK, SV>(
    order: Seq<SK>,
    source: Map<SK, SV>,
    steps: Seq<Change<SK, SV>>,
)
    requires
        source_listed(order, source),
    ensures
        source_listed(source_order(order, steps), replay(source, steps)),
        event_keys(order, steps, Seq::empty()).no_duplicates(),
        forall|k: SK|
            !event_keys(order, steps, Seq::empty()).contains(k) ==> #[trigger] lookup(
                replay(source, steps),
                k,
            ) == lookup(source, k),
    decreases steps.len(),
{
    if steps.len() > 0 {
        let rest = steps.drop_last();
        event_keys_cover(order, source, rest);
        let mid = replay(source, rest);
        let listed = source_order(order, rest);
        let sofar = event_keys(order, rest, Seq::empty());
        let all = event_keys(order, steps, Seq::empty());
        match steps.last() {
            Change::Initial { entries } => {
                extend_new_contains(sofar, listed);
                extend_new_contains(extend_new(sofar, listed), entry_keys(entries));
                extend_new_contains(Seq::<SK>::empty(), entry_keys(entries));
                entries_map_keys(entries);
                assert forall|k: SK| !all.contains(k) implies #[trigger] lookup(
                    replay(source, steps),
                    k,
                ) == lookup(source, k) by {
                    assert(!listed.contains(k) && !entry_keys(entries).contains(k));
                    assert(!mid.contains_key(k));
                    assert(!entries_map(entries).contains_key(k));
                    assert(lookup(mid, k) == lookup(source, k));
                }
            },
            Change::Insert { key, value } => {
                push_new_contains(sofar, key);
                push_new_contains(listed, key);
                assert forall|k: SK| !all.contains(k) implies #[trigger] lookup(
                    replay(source, steps),
                    k,
                ) == lookup(source, k) by {
                    assert(lookup(mid, k) == lookup(source, k));
                }
            },
            Change::Remove { key, old_value } => {
                push_new_contains(sofar, key);
                without_contains(listed, key);
                assert forall|k: SK| !all.contains(k) implies #[trigger] lookup(
                    replay(source, steps),
                    k,
                ) == lookup(source, k) by {
                    assert(lookup(mid, k) == lookup(source, k));
                }
            },
            Change::Update { key, old_value, new_value } => {
                push_new_contains(sofar, key);
                push_new_contains(listed, key);
                assert forall|k: SK| !all.contains(k) implies #[trigger] lookup(
                    replay(source, steps),
                    k,
                ) == lookup(source, k) by {
                    assert(lookup(mid, k) == lookup(source, k));
                }
            },
        }
    }
}

/// A projection follows its source: where the output holds exactly the rows that the source rows
/// give, and an event brings no collision, the output after the event holds exactly the rows that
/// the new source rows give.
pub proof fn projection_follows_source<SK, SV, OK, OV>(
    output: Projected<SK, OK, OV>,
    order: Seq<SK>,
    source: Map<SK, SV>,
    steps: Seq<Change<SK, SV>>,
    compute: spec_fn(SK, SV) -> Seq<(OK, OV)>,
)
    requires
        source_listed(order, source),
        output.holds(source_rows(source, compute)),
        collision(
            event_keys(order, steps, Seq::empty()),
            source_rows(replay(source, steps), compute),
            output.owners,
        ) is None,
    ensures
        output.give(
            event_keys(order, steps, Seq::empty()),
            source_rows(replay(source, steps), compute),
        ).holds(source_rows(replay(source, steps), compute)),
        source_listed(source_order(order, steps), replay(source, steps)),
{
    let keys = event_keys(order, steps, Seq::empty());
    let before = source_rows(source, compute);
    let after = source_rows(replay(source, steps), compute);
    event_keys_cover(order, source, steps);
    assert forall|k: SK| !keys.contains(k) implies #[trigger] after(k) == before(k) by {
        assert(lookup(replay(source, steps), k) == lookup(source, k));
    }
    output.give_holds(keys, before, after);
}

/// Each output key that a source key gives belongs to that source key.
pub open spec fn rows_owned<SK, OK, OV>(
    rows: spec_fn(SK) -> Seq<(OK, OV)>,
    owner: spec_fn(OK) -> SK,
) -> bool {
    forall|k: SK, o: OK| #[trigger] entry_keys(rows(k)).contains(o) ==> owner(o) == k
}

/// Each source key gives each output key once.
pub open spec fn rows_distinct<SK, OK, OV>(rows: spec_fn(SK) -> Seq<(OK, OV)>) -> bool {
    forall|k: SK| #[trigger] entry_keys(rows(k)).no_duplicates()
}

proof fn owned_claims<SK, OK, OV>(
    keys: Seq<SK>,
    rows: spec_fn(SK) -> Seq<(OK, OV)>,
    owner: spec_fn(OK) -> SK,
)
    requires
        keys.no_duplicates(),
        rows_owned(rows, owner),
        rows_distinct(rows),
    ensures
        forall|i: int|
            0 <= i < claims(keys, rows).len() ==> owner((#[trigger] claims(keys, rows)[i]).1)
                == claims(keys, rows)[i].0 && keys.contains(claims(keys, rows)[i].0),
        forall|i: int, j: int|
            0 <= i < claims(keys, rows).len() && 0 <= j < claims(keys, rows).len() && i != j ==> (
            #[trigger] claims(keys, rows)[i]).1 != (#[trigger] claims(keys, rows)[j]).1,
    decreases keys.len(),
{
    if keys.len() > 0 {
        let rest = keys.drop_last();
        let k = keys.last();
        let made = claims(rest, rows);
        let names = entry_keys(rows(k));
        let all = claims(keys, rows);
        owned_claims(rest, rows, owner);
        assert(all == made + names.map_values(|o: OK| (k, o)));
        assert(!rest.contains(k)) by {
            if rest.contains(k) {
                let i = choose|i: int| 0 <= i < rest.len() && rest[i] == k;
                assert(keys[i] == keys[keys.len() - 1]);
            }
        }
        assert(keys[keys.len() - 1] == k);
        assert forall|i: int| 0 <= i < all.len() implies owner((#[trigger] all[i]).1) == all[i].0
            && keys.contains(all[i].0) && (i < made.len() ==> rest.contains(all[i].0)) && (i
            >= made.len() ==> all[i].0 == k) by {
            if i < made.len() {
                assert(all[i] == made[i]);
                let n = choose|n: int| 0 <= n < rest.len() && rest[n] == made[i].0;
                assert(keys[n] == made[i].0);
            } else {
                assert(names.contains(names[i - made.len()]));
            }
        }
        assert forall|i: int, j: int|
            0 <= i < all.len() && 0 <= j < all.len() && i != j implies (#[trigger] all[i]).1 != (
        #[trigger] all[j]).1 by {
            if i < made.len() && j < made.len() {
                assert(all[i] == made[i] && all[j] == made[j]);
            } else if i >= made.len() && j >= made.len() {
                assert(names.no_duplicates());
                let a = i - made.len();
                let b = j - made.len();
                assert(names[a] != names[b]);
                assert(all[i].1 == names[a] && all[j].1 == names[b]);
            } else {
                assert(owner(all[i].1) == all[i].0);
                assert(owner(all[j].1) == all[j].0);
            }
        }
    }
}

proof fn distinct_claims_fit<SK, OK>(made: Seq<(SK, OK)>)
    requires
        forall|i: int, j: int|
            0 <= i < made.len() && 0 <= j < made.len() && i != j ==> (#[trigger] made[i]).1 != (
            #[trigger] made[j]).1,
    ensures
        first_clash(made) is None,
    decreases made.len(),
{
    if made.len() > 0 {
        let rest = made.drop_last();
        distinct_claims_fit(rest);
        if claimed(rest, made.last().1) {
            let i = choose|i: int| 0 <= i < rest.len() && (#[trigger] rest[i]).1 == made.last().1;
            assert(made[i].1 == made[made.len() - 1].1);
        }
    }
}

/// Where each output key belongs to the source key that gives it, and each source key gives it once,
/// no collision can come.
pub proof fn owned_rows_never_clash<SK, OK, OV>(
    keys: Seq<SK>,
    rows: spec_fn(SK) -> Seq<(OK, OV)>,
    owner: spec_fn(OK) -> SK,
    owners: Map<OK, SK>,
)
    requires
        keys.no_duplicates(),
        rows_owned(rows, owner),
        rows_distinct(rows),
        forall|o: OK| #[trigger] owners.contains_key(o) ==> owners[o] == owner(o),
    ensures
        collision(keys, rows, owners) is None,
{
    owned_claims(keys, rows, owner);
    distinct_claims_fit(claims(keys, rows));
}

/// The owners of the output keys of a faithful projection, where each output key belongs to the
/// source key that gives it.
pub proof fn faithful_owners<SK, OK, OV>(
    output: Projected<SK, OK, OV>,
    rows: spec_fn(SK) -> Seq<(OK, OV)>,
    owner: spec_fn(OK) -> SK,
)
    requires
        output.holds(rows),
        rows_owned(rows, owner),
    ensures
        forall|o: OK| #[trigger] output.owners.contains_key(o) ==> output.owners[o] == owner(o),
{
    assert forall|o: OK| #[trigger] output.owners.contains_key(o) implies output.owners[o] == owner(
        o,
    ) by {
        let k = output.owners[o];
        assert(lookup(output.owners, o) == Some(k));
        assert(entry_keys(rows(k)).contains(o));
    }
}

/// A projection that holds what its source gives meets no collision exactly where, once the source has
/// changed, no row gives an output key twice and no two rows give the same one.
pub proof fn clashes_are_shared_keys<SK, SV, OK, OV>(
    output: Projected<SK, OK, OV>,
    order: Seq<SK>,
    source: Map<SK, SV>,
    steps: Seq<Change<SK, SV>>,
    compute: spec_fn(SK, SV) -> Seq<(OK, OV)>,
)
    requires
        source_listed(order, source),
        output.holds(source_rows(source, compute)),
    ensures
        collision(
            event_keys(order, steps, Seq::empty()),
            source_rows(replay(source, steps), compute),
            output.owners,
        ) is None <==> rows_distinct(source_rows(replay(source, steps), compute)) && one_giver(
            source_rows(replay(source, steps), compute),
        ),
{
    let keys = event_keys(order, steps, Seq::empty());
    let before = source_rows(source, compute);
    let after = source_rows(replay(source, steps), compute);
    event_keys_cover(order, source, steps);
    if collision(keys, after, output.owners) is None {
        projection_follows_source(output, order, source, steps, compute);
        let next = output.give(keys, after);
        assert forall|k: SK| #[trigger] entry_keys(after(k)).no_duplicates() by {
            assert(next.keys_of(k) == entry_keys(after(k)));
        }
        assert forall|x: SK, y: SK, o: OK| #[trigger] gives(after, x, o) && #[trigger] gives(after, y, o) implies x
            == y by {
            assert(entry_keys(after(x)).contains(o) <==> lookup(next.owners, o) == Some(x));
            assert(entry_keys(after(y)).contains(o) <==> lookup(next.owners, o) == Some(y));
        }
    }
    if rows_distinct(after) && one_giver(after) {
        let owner = |o: OK| choose|x: SK| #[trigger] gives(after, x, o);
        assert(rows_owned(after, owner)) by {
            assert forall|k: SK, o: OK| #[trigger] entry_keys(after(k)).contains(o) implies owner(o) == k by {
                assert(gives(after, k, o));
            }
        }
        owned_claims(keys, after, owner);
        distinct_claims_fit(claims(keys, after));
        let made = claims(keys, after);
        assert(!owner_clash(made, output.owners, keys)) by {
            if owner_clash(made, output.owners, keys) {
                let i = choose|i: int|
                    0 <= i < made.len() && output.owners.contains_key((#[trigger] made[i]).1)
                        && output.owners[made[i].1] != made[i].0 && !keys.contains(
                        output.owners[made[i].1],
                    );
                let o = made[i].1;
                let x = output.owners[o];
                assert(lookup(output.owners, o) == Some(x));
                assert(entry_keys(before(x)).contains(o));
                assert(lookup(replay(source, steps), x) == lookup(source, x));
                assert(after(x) == before(x));
                assert(entry_keys(after(x)).contains(o));
                assert(owner(o) == x);
            }
        }
    }
}

} // verus!
