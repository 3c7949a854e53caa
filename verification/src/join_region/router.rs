//! A join region that works as one runtime, or in shards by key, and tells the same in either way.
use vstd::prelude::*;

use crate::delta::{delta, delta_replays, piped, piped_lookup, put_all, put_all_covers};
use crate::diff::{
    all_leaves, apply_change, atoms, change_key, fits_all, flat, replay, replay_concat, saturated,
    steps_of, steps_of_concat, steps_of_flat, steps_of_push, work_of, Change, MapDiff,
};
use crate::fx::{fx_code, lookup, FxMap, FxState, FxSum};
use crate::join_lifecycle::RuntimeStorage;
use crate::join_region::arrivals::{
    canon_keys, live_run, live_step, next_work, ranked, sequenced, sequenced_len, Arrivals,
    MergeOrder,
};
use crate::join_region::stage_runtime::{
    batch_has_unique_atomic_keys, is_unit, touches_all, unique_steps, RegionStages, RightRoot,
    RuntimeStageCost, RuntimeStages,
};
use crate::join_region::trace::{
    canon_covers, entries_part, initial_order, key_of, key_part, live_of, live_of_run, part_replay,
    part_unique, piped_part, step_keys, steps_part, steps_part_concat, tells_permuted, tells_upto,
    tells_upto_all, tells_upto_next, told_in_order, trace, trace_concat, trace_replays,
    unique_order, unit_keys, unit_steps, unit_told, unit_trace,
};
use crate::join_runtime::sharded::{shard_for, shard_of};
use crate::join_runtime::sharded_laws::{delta_tells, tells, tells_same};
use crate::merge::{is_order, rank_before, sort_ranked, sorted_by, Rank};
use crate::join_runtime::sharded_join::unzip;
use crate::parallel::{par_zip_map, zip_map, WorkerPool};
use crate::value::{models, models_push, CellValue, MapKey};

verus! {

/// The work from which a region is divided among shards.
pub const DEFAULT_PROMOTION_WORK: usize = 8_192;

/// The estimated work from which the shards of a region work in parallel.
pub const PARALLEL_REGION_WORK_ENTER: usize = 200_000;

/// The estimated work below which the shards of a region stop working in parallel.
pub const PARALLEL_REGION_WORK_EXIT: usize = 96_000;

/// The shard that is responsible for a key.
pub open spec fn key_route<K: MapKey>(begin: FxSum, count: usize) -> spec_fn(K::Model) -> int {
    |k: K::Model| shard_of(fx_code::<K>(begin, k), count)
}

/// The number of a key in an order, or the largest for a key without one.
pub open spec fn number_in<K>(order: Map<K, u64>, k: K) -> u64 {
    if order.contains_key(k) {
        order[k]
    } else {
        u64::MAX
    }
}

/// The number of the key of a change in an order.
pub open spec fn change_number<K, V>(order: Map<K, u64>, change: Change<K, V>) -> u64 {
    match change_key(change) {
        Some(k) => number_in(order, k),
        None => u64::MAX,
    }
}

/// `after` holds the changes of `before` in the order of the numbers of their keys; changes with
/// equal numbers keep their order.
pub open spec fn ordered_changes<K, V>(
    order: Map<K, u64>,
    before: Seq<Change<K, V>>,
    after: Seq<Change<K, V>>,
) -> bool {
    exists|places: Seq<int>| #[trigger]
        is_order(places, before.len()) && after.len() == before.len() && (forall|i: int|
            0 <= i < after.len() ==> #[trigger] after[i] == before[places[i]]) && (forall|
            i: int,
            j: int,
        |
            0 <= i < j < after.len() ==> change_number(order, #[trigger] after[i]) < change_number(
                order,
                #[trigger] after[j],
            ) || (change_number(order, after[i]) == change_number(order, after[j]) && places[i]
                < places[j]))
}

/// Puts changes into the order of the numbers of their keys.
pub fn order_changes<K: MapKey, V: CellValue>(
    order: &FxMap<K, u64>,
    changes: Vec<MapDiff<K, V>>,
) -> (ordered: Vec<MapDiff<K, V>>)
    requires
        flat(changes@),
    ensures
        flat(ordered@),
        ordered_changes(order@, steps_of(changes@), steps_of(ordered@)),
{
    let ghost steps = steps_of(changes@);
    let mut items: Vec<(Rank, MapDiff<K, V>)> = Vec::new();
    let mut i: usize = 0;
    proof {
        steps_of_flat(changes@);
    }
    while i < changes.len()
        invariant
            i <= changes@.len(),
            flat(changes@),
            steps == steps_of(changes@),
            steps.len() == changes@.len(),
            forall|n: int| 0 <= n < changes@.len() ==> #[trigger] steps[n] == changes@[n].atom(),
            items@.len() == i,
            forall|n: int|
                0 <= n < i ==> !((#[trigger] items@[n]).1 is Batch) && items@[n].1.atom() == steps[n]
                    && items@[n].0 == (change_number(order@, steps[n]), 0u64, 0u64, 0u64),
        decreases changes@.len() - i,
    {
        proof {
            assert(!(changes@[i as int] is Batch));
            assert(steps[i as int] == changes@[i as int].atom());
        }
        let number: u64 = match changes[i].atomic_key() {
            Some(key) => match order.get(key) {
                Some(number) => *number,
                None => u64::MAX,
            },
            None => u64::MAX,
        };
        items.push(((number, 0, 0, 0), changes[i].clone_diff()));
        i += 1;
    }
    let ghost before = items@;
    sort_ranked(&mut items);
    let ghost after = items@;
    let ghost places = choose|places: Seq<int>| #[trigger] sorted_by(before, after, places);
    let mut ordered: Vec<MapDiff<K, V>> = Vec::new();
    let mut n: usize = 0;
    proof {
        assert forall|x: int| 0 <= x < after.len() implies !((#[trigger] after[x]).1 is Batch)
            && after[x].1.atom() == steps[places[x]] && after[x].0 == (
            change_number(order@, after[x].1.atom()),
            0u64,
            0u64,
            0u64,
        ) by {
            assert(after[x] == before[places[x]]);
            assert(0 <= places[x] < before.len());
        }
    }
    while n < items.len()
        invariant
            n <= items@.len(),
            items@ == after,
            forall|x: int| 0 <= x < after.len() ==> !((#[trigger] after[x]).1 is Batch),
            flat(ordered@),
            ordered@.len() == n,
            forall|x: int| 0 <= x < n ==> (#[trigger] ordered@[x]).atom() == after[x].1.atom(),
        decreases items@.len() - n,
    {
        assert(!(after[n as int].1 is Batch));
        ordered.push(items[n].1.clone_diff());
        n += 1;
    }
    proof {
        steps_of_flat(ordered@);
        let result = steps_of(ordered@);
        assert forall|x: int| 0 <= x < result.len() implies #[trigger] result[x] == steps[places[x]] by {
            assert(result[x] == ordered@[x].atom());
            assert(after[x].1.atom() == steps[places[x]]);
        }
        assert forall|x: int, y: int| 0 <= x < y < result.len() implies change_number(
            order@,
            #[trigger] result[x],
        ) < change_number(order@, #[trigger] result[y]) || (change_number(order@, result[x])
            == change_number(order@, result[y]) && places[x] < places[y]) by {
            assert(result[x] == ordered@[x].atom() && result[y] == ordered@[y].atom());
            assert(after[x].0 == (change_number(order@, after[x].1.atom()), 0u64, 0u64, 0u64));
            assert(after[y].0 == (change_number(order@, after[y].1.atom()), 0u64, 0u64, 0u64));
            assert(rank_before(after[x].0, after[y].0) || (after[x].0 == after[y].0 && places[x]
                < places[y]));
        }
        assert(is_order(places, steps.len()));
    }
    ordered
}

/// Changes that take one map to another, put into the order of numbers that grow along a sequence of
/// keys, are those that are told of that sequence.
proof fn ordered_tells<K, V>(
    order: Map<K, u64>,
    before: Map<K, V>,
    after: Map<K, V>,
    steps: Seq<Change<K, V>>,
    ordered: Seq<Change<K, V>>,
    keys: Seq<K>,
)
    requires
        tells(before, after, steps),
        ordered_changes(order, steps, ordered),
        keys.no_duplicates(),
        forall|k: K| !keys.contains(k) ==> #[trigger] lookup(before, k) == lookup(after, k),
        forall|i: int| 0 <= i < keys.len() ==> order.contains_key(#[trigger] keys[i]),
        forall|i: int, j: int|
            0 <= i < j < keys.len() ==> order[#[trigger] keys[i]] < order[#[trigger] keys[j]],
    ensures
        ordered == delta(before, keys, after),
{
    let places = choose|places: Seq<int>| #[trigger]
        is_order(places, steps.len()) && ordered.len() == steps.len() && (forall|i: int|
            0 <= i < ordered.len() ==> #[trigger] ordered[i] == steps[places[i]]) && (forall|
            i: int,
            j: int,
        |
            0 <= i < j < ordered.len() ==> change_number(order, #[trigger] ordered[i])
                < change_number(order, #[trigger] ordered[j]) || (change_number(order, ordered[i])
                == change_number(order, ordered[j]) && places[i] < places[j]));
    tells_permuted(before, after, steps, ordered, places);
    let number = |k: K| number_in(order, k) as int;
    assert forall|i: int| 0 <= i < ordered.len() implies keys.contains(key_of(#[trigger] ordered[i]))
        && change_number(order, ordered[i]) == number(key_of(ordered[i])) by {
        let k = key_of(ordered[i]);
        assert(change_key(ordered[i]) is Some);
        assert(crate::join_runtime::sharded_laws::tells_at(
            ordered,
            k,
            lookup(before, k),
            lookup(after, k),
        ));
        if !keys.contains(k) {
            assert(lookup(before, k) == lookup(after, k));
        }
    }
    assert forall|i: int, j: int| 0 <= i < j < ordered.len() implies number(
        key_of(#[trigger] ordered[i]),
    ) < number(key_of(#[trigger] ordered[j])) by {
        let a = key_of(ordered[i]);
        let b = key_of(ordered[j]);
        assert(keys.contains(a) && keys.contains(b));
        assert(change_key(ordered[i]) is Some && change_key(ordered[j]) is Some);
        assert(a != b) by {
            if a == b {
                let x = lookup(before, a);
                let y = lookup(after, a);
                assert(crate::join_runtime::sharded_laws::tells_at(ordered, a, x, y));
                if x == y {
                    assert(change_key(ordered[i]) != Some(a));
                } else {
                    let t = choose|t: int| #[trigger]
                        crate::merge::leads_once(ordered, a, x, y, t);
                    assert(t == i && t == j);
                }
            }
        }
        let p = choose|p: int| 0 <= p < keys.len() && keys[p] == a;
        let q = choose|q: int| 0 <= q < keys.len() && keys[q] == b;
        assert(order.contains_key(keys[p]) && order.contains_key(keys[q]));
        if p < q {
            assert(order[keys[p]] < order[keys[q]]);
        } else {
            assert(order[keys[q]] < order[keys[p]]);
        }
        assert(change_number(order, ordered[i]) == number(a));
        assert(change_number(order, ordered[j]) == number(b));
    }
    assert forall|i: int, j: int| 0 <= i < j < keys.len() implies number(#[trigger] keys[i]) < number(
        #[trigger] keys[j],
    ) by {
        assert(order.contains_key(keys[i]) && order.contains_key(keys[j]));
    }
    told_in_order(before, after, ordered, keys, number);
}

/// The functions of a region, its rows, and the order in which they came.
#[verifier::reject_recursive_types(K)]
#[verifier::reject_recursive_types(Input)]
pub struct RegionRouter<S: RegionStages<K, Input>, K: MapKey, Input: CellValue> {
    stages: S,
    rights: S::Rights,
    storage: RuntimeStorage<S::Shard, Vec<S::Shard>>,
    arrivals: Arrivals<K>,
    hasher: FxState,
    shard_count: usize,
    promotion_work: usize,
    rows: Ghost<Map<K::Model, Input::Model>>,
    past: Ghost<Seq<S::Rights>>,
}

/// A chain of right rows, and what is told as the stages go along it.
pub open spec fn right_trace<S: RuntimeStages<K, Input>, K: MapKey, Input: CellValue>(
    stages: S,
    rows: Map<K::Model, Input::Model>,
    live: Seq<K::Model>,
    chain: Seq<S::Rights>,
) -> Seq<Change<K::Model, <S::Output as CellValue>::Model>>
    decreases chain.len(),
{
    if chain.len() <= 1 {
        Seq::empty()
    } else {
        right_trace::<S, K, Input>(stages, rows, live, chain.drop_last()) + delta(
            piped(rows, region_row::<S, K, Input>(stages, chain[chain.len() - 2])),
            live,
            piped(rows, region_row::<S, K, Input>(stages, chain.last())),
        )
    }
}

/// What the stages of a region make of one row.
pub open spec fn region_row<S: RuntimeStages<K, Input>, K: MapKey, Input: CellValue>(
    stages: S,
    rights: S::Rights,
) -> spec_fn(K::Model, Input::Model) -> Option<<S::Output as CellValue>::Model> {
    |k: K::Model, v: Input::Model| stages.through(rights, k, v)
}

/// Each shard holds its part of the rows, and keeps what the stages make of it.
pub open spec fn shards_sound<S: RuntimeStages<K, Input>, K: MapKey, Input: CellValue>(
    stages: S,
    rights: S::Rights,
    shards: Seq<S::Shard>,
    begin: FxSum,
    rows: Map<K::Model, Input::Model>,
) -> bool {
    &&& 1 <= shards.len() <= usize::MAX
    &&& forall|s: int|
        0 <= s < shards.len() ==> stages.sound(rights, #[trigger] shards[s]) && stages.rows(shards[s])
            == key_part(rows, key_route::<K>(begin, shards.len() as usize), s)
}

impl<S: RegionStages<K, Input>, K: MapKey, Input: CellValue> RegionRouter<S, K, Input> {
    pub closed spec fn stages(&self) -> S {
        self.stages
    }

    pub closed spec fn rights(&self) -> S::Rights {
        self.rights
    }

    /// The rows that go into the region.
    pub closed spec fn rows(&self) -> Map<K::Model, Input::Model> {
        self.rows@
    }

    /// The keys of the rows in the order in which they came.
    pub closed spec fn live(&self) -> Seq<K::Model> {
        self.arrivals.live()
    }

    /// The region has been divided among shards.
    pub closed spec fn sharded(&self) -> bool {
        self.storage is Sharded
    }

    /// What the hasher of keys begins with.
    pub closed spec fn begin(&self) -> FxSum {
        self.hasher@
    }

    pub closed spec fn shard_count(&self) -> usize {
        self.shard_count
    }

    pub closed spec fn promotion_work(&self) -> usize {
        self.promotion_work
    }

    /// What the region makes of one row.
    pub open spec fn row(&self) -> spec_fn(K::Model, Input::Model) -> Option<
        <S::Output as CellValue>::Model,
    > {
        region_row::<S, K, Input>(self.stages(), self.rights())
    }

    /// The rows that come out of the region.
    pub open spec fn output(&self) -> Map<K::Model, <S::Output as CellValue>::Model> {
        piped(self.rows(), self.row())
    }

    /// How many numbers have been given out to keys since the rows began anew.
    pub closed spec fn numbered(&self) -> nat {
        self.arrivals.next() as nat
    }

    /// There are numbers left for as many keys as the changes name.
    pub open spec fn room(&self, steps: Seq<Change<K::Model, Input::Model>>) -> bool {
        self.numbered() + work_of(steps) <= u64::MAX
    }

    /// The storage holds the rows, and the order in which they came is known.
    pub closed spec fn wf(&self) -> bool {
        &&& self.stages.lawful()
        &&& self.stages.rights_wf(self.rights)
        &&& self.past@ == seq![self.rights]
        &&& self.arrivals.wf()
        &&& live_of(self.arrivals.live(), self.rows@)
        &&& match self.storage {
            RuntimeStorage::Serial(shard) => self.stages.sound(self.rights, shard)
                && self.stages.rows(shard) == self.rows@,
            RuntimeStorage::Sharded { runtime, .. } => shards_sound::<S, K, Input>(
                self.stages,
                self.rights,
                runtime@,
                self.hasher@,
                self.rows@,
            ),
        }
    }

    /// The functions of the stages can be called, and their right rows are well formed.
    pub proof fn whole(&self)
        requires
            self.wf(),
        ensures
            self.stages().lawful(),
            self.stages().rights_wf(self.rights()),
    {
    }

    /// The keys of the rows are those that came and did not go.
    pub proof fn live_rows(&self)
        requires
            self.wf(),
        ensures
            live_of(self.live(), self.rows()),
    {
    }

    /// Whether there are numbers left for the keys that a diff names.
    pub fn has_room(&self, diff: &MapDiff<K, Input>) -> (room: bool)
        ensures
            room ==> self.room(diff.steps()),
            !room ==> !self.room(diff.steps()) || saturated(work_of(diff.steps())) == usize::MAX,
    {
        self.arrivals.has_room(diff.work_items())
    }

    pub fn new(stages: S, shard_count: usize) -> (router: Self)
        requires
            stages.lawful(),
        ensures
            router.wf(),
            router.stages() == stages,
            router.rows() == Map::<K::Model, Input::Model>::empty(),
            router.live() == Seq::<K::Model>::empty(),
            !router.sharded(),
            router.shard_count() == shard_count,
            router.promotion_work() == DEFAULT_PROMOTION_WORK,
            router.numbered() == 0,
            router.begin().state == 0,
            router.stages().bare(router.rights()),
    {
        let rights = stages.new_rights();
        let shard = stages.empty_shard(&rights);
        let ghost past = seq![rights];
        let router = RegionRouter {
            stages,
            rights,
            storage: RuntimeStorage::Serial(shard),
            arrivals: Arrivals::new(),
            hasher: FxState::new(),
            shard_count,
            promotion_work: DEFAULT_PROMOTION_WORK,
            rows: Ghost(Map::empty()),
            past: Ghost(past),
        };
        router
    }

    /// Divides the rows of one runtime among shards, in the order in which they came.
    fn build_shards(&self, sequential: &S::Shard) -> (shards: Vec<S::Shard>)
        requires
            self.stages.lawful(),
            self.stages.rights_wf(self.rights),
            self.arrivals.wf(),
            live_of(self.arrivals.live(), self.rows@),
            self.stages.rows(*sequential) == self.rows@,
        ensures
            shards_sound::<S, K, Input>(
                self.stages,
                self.rights,
                shards@,
                self.hasher@,
                self.rows@,
            ),
            shards@.len() == if self.shard_count == 0 {
                1
            } else {
                self.shard_count as int
            },
    {
        let count: usize = if self.shard_count == 0 {
            1
        } else {
            self.shard_count
        };
        let hasher = &self.hasher;
        let ghost begin = hasher@;
        let ghost route = key_route::<K>(begin, count);
        let ghost live = self.arrivals.live();
        let mut shards: Vec<S::Shard> = Vec::new();
        let mut i: usize = 0;
        while i < count
            invariant
                i <= count,
                shards@.len() == i,
                self.stages.lawful(),
                self.stages.rights_wf(self.rights),
                forall|s: int|
                    0 <= s < i ==> self.stages.sound(self.rights, #[trigger] shards@[s])
                        && self.stages.rows(shards@[s]) == Map::<K::Model, Input::Model>::empty(),
            decreases count - i,
        {
            shards.push(self.stages.empty_shard(&self.rights));
            i += 1;
        }
        let keys = self.arrivals.live_keys();
        let mut n: usize = 0;
        proof {
            assert forall|s: int| 0 <= s < count implies self.stages.rows(#[trigger] shards@[s])
                == key_part(came(self.rows@, live.take(0)), route, s) by {
                assert(self.stages.rows(shards@[s]) =~= key_part(
                    came(self.rows@, live.take(0)),
                    route,
                    s,
                ));
            }
        }
        while n < keys.len()
            invariant
                n <= keys@.len(),
                live == models(keys@),
                live == self.arrivals.live(),
                live_of(live, self.rows@),
                count >= 1,
                shards@.len() == count,
                route == key_route::<K>(begin, count),
                begin == hasher@,
                self.stages.lawful(),
                self.stages.rights_wf(self.rights),
                self.stages.rows(*sequential) == self.rows@,
                forall|s: int|
                    0 <= s < count ==> self.stages.sound(self.rights, #[trigger] shards@[s])
                        && self.stages.rows(shards@[s]) == key_part(
                        came(self.rows@, live.take(n as int)),
                        route,
                        s,
                    ),
            decreases keys@.len() - n,
        {
            let key = &keys[n];
            let ghost k = key.model();
            let ghost rows = self.rows@;
            proof {
                assert(live[n as int] == k);
                assert(live.contains(k));
                assert(rows.contains_key(k));
            }
            match self.stages.head_input(sequential, key) {
                Some(value) => {
                    let shard = shard_for(key, hasher, count);
                    let insert = MapDiff::Insert { key: key.clone_value(), value };
                    let ghost before = shards@;
                    let _ = self.stages.apply_unit(&self.rights, &mut shards[shard], &insert);
                    proof {
                        let steps = insert.steps();
                        assert(steps.drop_last() =~= Seq::empty());
                        let old_rows = self.stages.rows(before[shard as int]);
                        assert(replay(old_rows, steps) == apply_change(
                            replay(old_rows, steps.drop_last()),
                            steps.last(),
                        ));
                        came_next(rows, live, n as int);
                        assert forall|s: int| 0 <= s < count implies self.stages.sound(
                            self.rights,
                            #[trigger] shards@[s],
                        ) && self.stages.rows(shards@[s]) == key_part(
                            came(rows, live.take(n + 1)),
                            route,
                            s,
                        ) by {
                            let _ = before[s];
                            let a = key_part(came(rows, live.take(n as int)), route, s);
                            let b = key_part(came(rows, live.take(n + 1)), route, s);
                            if s == shard {
                                assert(a.insert(k, rows[k]) =~= b);
                            } else {
                                assert(shards@[s] == before[s]);
                                assert(a =~= b);
                            }
                        }
                    }
                },
                None => {},
            }
            n += 1;
        }
        proof {
            assert(live.take(n as int) =~= live);
            assert(came(self.rows@, live) =~= self.rows@);
        }
        shards
    }

    fn promote(&mut self)
        requires
            old(self).wf(),
        ensures
            final(self).wf(),
            final(self).sharded(),
            final(self).stages() == old(self).stages(),
            final(self).rights() == old(self).rights(),
            final(self).rows() == old(self).rows(),
            final(self).live() == old(self).live(),
            final(self).shard_count() == old(self).shard_count(),
            final(self).promotion_work() == old(self).promotion_work(),
            final(self).begin() == old(self).begin(),
            final(self).arrivals == old(self).arrivals,
    {
        let shards = match &self.storage {
            RuntimeStorage::Serial(shard) => self.build_shards(shard),
            RuntimeStorage::Sharded { .. } => {
                return;
            },
        };
        self.storage = RuntimeStorage::Sharded { runtime: shards, parallel_active: false };
    }

    /// Works through one change with one runtime, and tells it in the order of the touched keys.
    fn apply_serial_leaf(
        &mut self,
        leaf: &MapDiff<K, Input>,
    ) -> (changes: Vec<MapDiff<K, S::Output>>)
        requires
            old(self).wf(),
            !old(self).sharded(),
            !(leaf is Batch),
            old(self).room(leaf.steps()),
        ensures
            final(self).wf(),
            !final(self).sharded(),
            final(self).stages() == old(self).stages(),
            final(self).rights() == old(self).rights(),
            final(self).rows() == apply_change(old(self).rows(), leaf.atom()),
            final(self).live() == live_step(old(self).live(), leaf.atom()),
            final(self).shard_count() == old(self).shard_count(),
            final(self).promotion_work() == old(self).promotion_work(),
            final(self).begin() == old(self).begin(),
            final(self).arrivals.next() <= old(self).arrivals.next() + work_of(leaf.steps()),
            flat(changes@),
            steps_of(changes@) == delta(
                old(self).output(),
                canon_keys(old(self).live(), leaf.atom()),
                final(self).output(),
            ),
    {
        let ghost steps = leaf.steps();
        let ghost change = leaf.atom();
        let ghost rows = self.rows@;
        let ghost live = self.arrivals.live();
        let order = self.arrivals.merge_order(leaf);
        let changes = match &mut self.storage {
            RuntimeStorage::Serial(shard) => {
                let ghost before = *shard;
                proof {
                    self.stages.sound_output(self.rights, before);
                }
                let changes = self.stages.apply_unit(&self.rights, shard, leaf);
                proof {
                    self.stages.sound_output(self.rights, *shard);
                    let out = self.stages.output(before);
                    let out2 = self.stages.output(*shard);
                    let keys = choose|keys: Seq<K::Model>|
                        #![trigger delta(out, keys, out2)]
                        touches_all(self.stages.rows(before), steps, Seq::empty(), keys)
                            && keys.no_duplicates() && steps_of(changes@) == delta(out, keys, out2)
                            && put_all(out, keys, out2) == out2;
                    delta_tells(out, keys, out2);
                }
                changes
            },
            RuntimeStorage::Sharded { .. } => Vec::new(),
        };
        self.rows = Ghost(apply_change(rows, change));
        let ordered = order_changes(&order, changes);
        proof {
            assert(steps.drop_last() =~= Seq::empty());
            assert(replay(rows, steps) == apply_change(replay(rows, steps.drop_last()), steps.last()));
            assert(live_run(live, steps) == live_step(live_run(live, steps.drop_last()), steps.last()));
            leaf_order(live, steps, self.arrivals.numbers(), self.arrivals.next());
            canon_covers(live, rows, change);
            let f = region_row::<S, K, Input>(self.stages, self.rights);
            assert(piped(rows, f) =~= piped(
                rows,
                |k: K::Model, v: Input::Model| self.stages.through(self.rights, k, v),
            ));
            let after = apply_change(rows, change);
            assert(piped(after, f) =~= piped(
                after,
                |k: K::Model, v: Input::Model| self.stages.through(self.rights, k, v),
            ));
            let keys = canon_keys(live, change);
            assert forall|k: K::Model| !keys.contains(k) implies #[trigger] lookup(piped(rows, f), k)
                == lookup(piped(after, f), k) by {
                assert(lookup(rows, k) == lookup(after, k));
                piped_lookup(rows, f, k);
                piped_lookup(after, f, k);
            }
            ranked_grows(order@, keys);
            ordered_tells(
                order@,
                piped(rows, f),
                piped(after, f),
                steps_of(changes@),
                steps_of(ordered@),
                keys,
            );
            live_of_run(live, rows, steps);
        }
        self.arrivals.remember(leaf);
        ordered
    }

    /// Works through the changes of an event one by one, and tells each in the order of the touched
    /// keys.
    fn apply_left_eventwise(&mut self, diff: &MapDiff<K, Input>) -> (output: Vec<
        MapDiff<K, S::Output>,
    >)
        requires
            old(self).wf(),
            !old(self).sharded(),
            old(self).room(diff.steps()),
        ensures
            final(self).wf(),
            !final(self).sharded(),
            final(self).stages() == old(self).stages(),
            final(self).rights() == old(self).rights(),
            final(self).rows() == replay(old(self).rows(), diff.steps()),
            final(self).live() == live_run(old(self).live(), diff.steps()),
            final(self).shard_count() == old(self).shard_count(),
            final(self).promotion_work() == old(self).promotion_work(),
            final(self).begin() == old(self).begin(),
            final(self).numbered() <= old(self).numbered() + work_of(diff.steps()),
            flat(output@),
            steps_of(output@) == trace(
                old(self).rows(),
                old(self).live(),
                diff.steps(),
                old(self).row(),
            ),
    {
        let ghost steps = diff.steps();
        let ghost f = self.row();
        let leaves = diff.leaves();
        let mut output: Vec<MapDiff<K, S::Output>> = Vec::new();
        let mut i: usize = 0;
        assert(steps.take(0) =~= Seq::empty());
        while i < leaves.len()
            invariant
                i <= leaves@.len(),
                all_leaves(leaves@),
                atoms(leaves@) == steps,
                f == old(self).row(),
                old(self).room(steps),
                self.wf(),
                !self.sharded(),
                self.stages() == old(self).stages(),
                self.rights() == old(self).rights(),
                self.rows() == replay(old(self).rows(), steps.take(i as int)),
                self.live() == live_run(old(self).live(), steps.take(i as int)),
                self.shard_count() == old(self).shard_count(),
                self.promotion_work() == old(self).promotion_work(),
                self.begin() == old(self).begin(),
                self.arrivals.next() <= old(self).arrivals.next() + work_of(steps.take(i as int)),
                flat(output@),
                steps_of(output@) == trace(old(self).rows(), old(self).live(), steps.take(i as int), f),
            decreases leaves@.len() - i,
        {
            let ghost sofar = output@;
            proof {
                next_work(steps, i as int);
                assert(steps[i as int] == leaves@[i as int].atom());
                assert(leaves@[i as int].steps() =~= seq![steps[i as int]]);
                assert(replay(old(self).rows(), steps.take(i + 1)) == apply_change(
                    replay(old(self).rows(), steps.take(i + 1).drop_last()),
                    steps.take(i + 1).last(),
                ));
            }
            let mut more = self.apply_serial_leaf(leaves[i]);
            proof {
                steps_of_concat(sofar, more@);
                flat_concat(sofar, more@);
            }
            output.append(&mut more);
            i += 1;
        }
        assert(steps.take(i as int) =~= steps);
        output
    }

    /// Follows a diff with one runtime.
    fn apply_serial_left(&mut self, diff: &MapDiff<K, Input>, eventwise: bool) -> (output: Vec<
        MapDiff<K, S::Output>,
    >)
        requires
            old(self).wf(),
            !old(self).sharded(),
            old(self).room(diff.steps()),
            eventwise == (diff is Batch && !unique_steps(diff.steps())),
        ensures
            final(self).wf(),
            !final(self).sharded(),
            final(self).stages() == old(self).stages(),
            final(self).rights() == old(self).rights(),
            final(self).rows() == replay(old(self).rows(), diff.steps()),
            final(self).live() == live_run(old(self).live(), diff.steps()),
            final(self).shard_count() == old(self).shard_count(),
            final(self).promotion_work() == old(self).promotion_work(),
            final(self).begin() == old(self).begin(),
            final(self).numbered() <= old(self).numbered() + work_of(diff.steps()),
            told_as(diff, output@),
            steps_of(output@) == trace(
                old(self).rows(),
                old(self).live(),
                diff.steps(),
                old(self).row(),
            ),
    {
        if eventwise {
            let changes = self.apply_left_eventwise(diff);
            return one_batch(changes);
        }
        let ghost steps = diff.steps();
        let ghost rows = self.rows@;
        let ghost live = self.arrivals.live();
        let ghost f = self.row();
        match diff {
            MapDiff::Initial { .. } => {
                let output = self.apply_serial_leaf(diff);
                proof {
                    one_trace(rows, live, steps, f);
                }
                output
            },
            _ => {
                let changes = match &mut self.storage {
                    RuntimeStorage::Serial(shard) => {
                        let ghost before = *shard;
                        proof {
                            self.stages.sound_output(self.rights, before);
                            if !(diff is Batch) {
                                single_unique(steps);
                            }
                        }
                        let changes = self.stages.apply_unit(&self.rights, shard, diff);
                        proof {
                            self.stages.sound_output(self.rights, *shard);
                            let out = self.stages.output(before);
                            let out2 = self.stages.output(*shard);
                            let keys = choose|keys: Seq<K::Model>|
                                #![trigger delta(out, keys, out2)]
                                touches_all(self.stages.rows(before), steps, Seq::empty(), keys)
                                    && keys.no_duplicates() && steps_of(changes@) == delta(
                                    out,
                                    keys,
                                    out2,
                                ) && put_all(out, keys, out2) == out2;
                            let g = |k: K::Model, v: Input::Model|
                                self.stages.through(self.rights, k, v);
                            assert(piped(rows, f) =~= piped(rows, g));
                            assert(piped(replay(rows, steps), f) =~= piped(replay(rows, steps), g));
                            unit_trace(rows, live, steps, f, keys);
                        }
                        changes
                    },
                    RuntimeStorage::Sharded { .. } => Vec::new(),
                };
                self.rows = Ghost(replay(rows, steps));
                proof {
                    live_of_run(live, rows, steps);
                }
                self.arrivals.remember(diff);
                match diff {
                    MapDiff::Batch { .. } => one_batch(changes),
                    _ => changes,
                }
            },
        }
    }
}

/// The rows of the keys that have come.
pub open spec fn came<K, V>(rows: Map<K, V>, keys: Seq<K>) -> Map<K, V> {
    Map::new(|k: K| rows.contains_key(k) && keys.contains(k), |k: K| rows[k])
}

proof fn came_next<K, V>(rows: Map<K, V>, live: Seq<K>, n: int)
    requires
        0 <= n < live.len(),
        rows.contains_key(live[n]),
    ensures
        came(rows, live.take(n + 1)) == came(rows, live.take(n)).insert(live[n], rows[live[n]]),
{
    let a = live.take(n);
    let b = live.take(n + 1);
    assert forall|k: K| b.contains(k) <==> a.contains(k) || k == live[n] by {
        if a.contains(k) {
            let i = choose|i: int| 0 <= i < a.len() && a[i] == k;
            assert(b[i] == k);
        }
        assert(b[n] == live[n]);
        if b.contains(k) {
            let i = choose|i: int| 0 <= i < b.len() && b[i] == k;
            if i < n {
                assert(a[i] == k);
            }
        }
    }
    assert(came(rows, b) =~= came(rows, a).insert(live[n], rows[live[n]]));
}

/// Numbers that are places grow along the keys.
proof fn ranked_grows<K>(numbers: Map<K, u64>, keys: Seq<K>)
    requires
        ranked(numbers, keys),
    ensures
        forall|i: int| 0 <= i < keys.len() ==> numbers.contains_key(#[trigger] keys[i]),
        forall|i: int, j: int|
            0 <= i < j < keys.len() ==> numbers[#[trigger] keys[i]] < numbers[#[trigger] keys[j]],
{
    assert forall|i: int| 0 <= i < keys.len() implies numbers.contains_key(#[trigger] keys[i]) by {
        assert(keys.contains(keys[i]));
    }
}

proof fn single_unique<K, V>(steps: Seq<Change<K, V>>)
    requires
        steps.len() == 1,
        change_key(steps[0]) is Some,
    ensures
        unique_steps(steps),
{
}

/// The order of a change on its own is that of the keys that it touches.
proof fn leaf_order<K, V>(live: Seq<K>, steps: Seq<Change<K, V>>, numbers: Map<K, u64>, next: u64)
    requires
        steps.len() == 1,
        sequenced(numbers, next, live),
        next + work_of(steps) <= u64::MAX,
    ensures
        ranked(
            (MergeOrder { live, order: Map::<K, u64>::empty(), next: 0 }).run(steps).order,
            canon_keys(live, steps[0]),
        ),
{
    sequenced_len(numbers, next, live);
    next_work(steps, 0);
    assert(steps.take(1) =~= steps);
    assert(steps.take(0) =~= Seq::empty());
    assert(steps =~= seq![steps[0]]);
    match steps[0] {
        Change::Initial { entries } => {
            assert(steps.drop_last() =~= Seq::empty());
            assert(work_of(steps) == work_of(steps.drop_last()) + entries.len());
            initial_order(live, entries);
        },
        _ => {
            unique_order(live, steps);
            assert(step_keys(steps) =~= canon_keys(live, steps[0]));
        },
    }
}

proof fn flat_concat<K, V>(a: Seq<MapDiff<K, V>>, b: Seq<MapDiff<K, V>>)
    requires
        flat(a),
        flat(b),
    ensures
        flat(a + b),
{
    assert forall|n: int| 0 <= n < (a + b).len() implies !((#[trigger] (a + b)[n]) is Batch) by {
        if n < a.len() {
            assert(!(a[n] is Batch));
        } else {
            assert(!(b[n - a.len()] is Batch));
        }
    }
}

/// A batch is told as one batch, and one change as it comes.
pub open spec fn told_as<A, B, K, O>(diff: &MapDiff<A, B>, told: Seq<MapDiff<K, O>>) -> bool {
    if diff is Batch {
        told.len() == 1 && told[0] is Batch && flat(told[0]->changes@)
    } else {
        flat(told)
    }
}

fn one_batch<K: CellValue, V: CellValue>(changes: Vec<MapDiff<K, V>>) -> (diffs: Vec<MapDiff<K, V>>)
    ensures
        diffs@ == seq![MapDiff::Batch { changes }],
        steps_of(diffs@) == steps_of(changes@),
{
    let mut diffs: Vec<MapDiff<K, V>> = Vec::new();
    proof {
        steps_of_push(diffs@, MapDiff::Batch { changes });
        assert(steps_of(diffs@) + steps_of(changes@) =~= steps_of(changes@));
    }
    diffs.push(MapDiff::Batch { changes });
    assert(diffs@ =~= seq![MapDiff::Batch { changes }]);
    diffs
}

proof fn one_trace<K, V, O>(
    rows: Map<K, V>,
    live: Seq<K>,
    steps: Seq<Change<K, V>>,
    f: spec_fn(K, V) -> Option<O>,
)
    requires
        steps.len() == 1,
    ensures
        trace(rows, live, steps, f) == delta(
            piped(rows, f),
            canon_keys(live, steps[0]),
            piped(apply_change(rows, steps[0]), f),
        ),
        replay(rows, steps) == apply_change(rows, steps[0]),
        live_run(live, steps) == live_step(live, steps[0]),
{
    let rest = steps.drop_last();
    assert(rest =~= Seq::empty());
    assert(replay(rows, rest) == rows);
    assert(live_run(live, rest) == live);
    assert(trace(rows, live, rest, f) =~= Seq::empty());
    let d = delta(piped(rows, f), canon_keys(live, steps[0]), piped(apply_change(rows, steps[0]), f));
    assert(Seq::empty() + d =~= d);
}

/// The changes of several units, one unit after the other.
pub open spec fn units_steps<K: CellValue, V: CellValue>(units: Seq<&MapDiff<K, V>>) -> Seq<
    Change<K::Model, V::Model>,
>
    decreases units.len(),
{
    if units.len() == 0 {
        Seq::empty()
    } else {
        units_steps(units.drop_last()) + units.last().steps()
    }
}

proof fn units_of_leaves<K: CellValue, V: CellValue>(leaves: Seq<&MapDiff<K, V>>)
    requires
        all_leaves(leaves),
    ensures
        units_steps(leaves) == atoms(leaves),
    decreases leaves.len(),
{
    if leaves.len() > 0 {
        let rest = leaves.drop_last();
        assert forall|i: int| 0 <= i < rest.len() implies !((#[trigger] rest[i]) is Batch) by {
            assert(!(leaves[i] is Batch));
        }
        units_of_leaves(rest);
        assert(!(leaves[leaves.len() - 1] is Batch));
        assert(units_steps(leaves) =~= atoms(leaves));
    } else {
        assert(units_steps(leaves) =~= atoms(leaves));
    }
}

/// Divides a unit of changes among shards by key.
fn route_unit<K: MapKey, V: CellValue>(
    unit: &MapDiff<K, V>,
    hasher: &FxState,
    count: usize,
) -> (parts: Vec<MapDiff<K, V>>)
    requires
        count >= 1,
        unit_steps(unit.steps()),
    ensures
        parts@.len() == count,
        forall|s: int|
            0 <= s < count ==> (#[trigger] parts@[s]).steps() == steps_part(
                unit.steps(),
                key_route::<K>(hasher@, count),
                s,
            ) && is_unit(&parts@[s]),
{
    let ghost begin = hasher@;
    let ghost route = key_route::<K>(begin, count);
    let ghost steps = unit.steps();
    let mut parts: Vec<MapDiff<K, V>> = Vec::new();
    let leaves = unit.leaves();
    if leaves.len() == 1 {
        if let MapDiff::Initial { entries } = leaves[0] {
            let ghost all = models(entries@);
            let mut lists: Vec<Vec<(K, V)>> = Vec::new();
            let mut i: usize = 0;
            while i < count
                invariant
                    i <= count,
                    lists@.len() == i,
                    forall|s: int| 0 <= s < i ==> (#[trigger] lists@[s])@.len() == 0,
                decreases count - i,
            {
                lists.push(Vec::new());
                i += 1;
            }
            let mut n: usize = 0;
            proof {
                assert(all.take(0) =~= Seq::empty());
                assert forall|s: int| 0 <= s < count implies models((#[trigger] lists@[s])@)
                    == entries_part(all.take(0), route, s) by {
                    assert(models(lists@[s]@) =~= Seq::empty());
                }
            }
            while n < entries.len()
                invariant
                    n <= entries@.len(),
                    all == models(entries@),
                    count >= 1,
                    route == key_route::<K>(begin, count),
                    begin == hasher@,
                    lists@.len() == count,
                    forall|s: int|
                        0 <= s < count ==> models((#[trigger] lists@[s])@) == entries_part(
                            all.take(n as int),
                            route,
                            s,
                        ),
                decreases entries@.len() - n,
            {
                let shard = shard_for(&entries[n].0, hasher, count);
                let entry = entries[n].clone_value();
                let ghost before = lists@;
                let mut list: Vec<(K, V)> = Vec::new();
                std::mem::swap(&mut list, &mut lists[shard]);
                proof {
                    models_push(list@, entry);
                }
                list.push(entry);
                lists.set(shard, list);
                proof {
                    assert(all.take(n + 1).drop_last() =~= all.take(n as int));
                    assert(all.take(n + 1).last() == entry.model());
                    assert forall|s: int| 0 <= s < count implies models((#[trigger] lists@[s])@)
                        == entries_part(all.take(n + 1), route, s) by {
                        let _ = before[s];
                        if s != shard {
                            assert(lists@[s] == before[s]);
                        }
                    }
                }
                n += 1;
            }
            proof {
                assert(all.take(n as int) =~= all);
                assert(steps =~= seq![Change::Initial { entries: all }]);
                assert(steps.drop_last() =~= Seq::empty());
            }
            let ghost filled = lists@;
            while lists.len() > 0
                invariant
                    filled.len() == count,
                    parts@.len() + lists@.len() == count,
                    lists@ == filled.skip(parts@.len() as int),
                    forall|s: int|
                        0 <= s < parts@.len() ==> #[trigger] parts@[s] == (MapDiff::Initial {
                            entries: filled[s],
                        }),
                decreases lists@.len(),
            {
                let ghost m = parts@.len() as int;
                let list = lists.remove(0);
                proof {
                    assert(list == filled[m]);
                    assert(lists@ =~= filled.skip(m + 1));
                }
                parts.push(MapDiff::Initial { entries: list });
            }
            proof {
                assert forall|s: int| 0 <= s < count implies (#[trigger] parts@[s]).steps()
                    == steps_part(steps, route, s) && is_unit(&parts@[s]) by {
                    let part = Change::Initial { entries: entries_part(all, route, s) };
                    let _ = filled[s];
                    assert(steps_part(steps, route, s) == steps_part(steps.drop_last(), route, s).push(
                        part,
                    ));
                    assert(steps_part(steps.drop_last(), route, s) =~= Seq::empty());
                    assert(parts@[s].steps() =~= seq![part]);
                    assert(Seq::empty().push(part) =~= seq![part]);
                }
            }
            return parts;
        }
    }
    proof {
        if steps.len() == 1 {
            assert(steps[0] == leaves@[0].atom());
            assert(!(leaves@[0] is Batch));
            single_unique(steps);
        }
    }
    let mut lists: Vec<Vec<MapDiff<K, V>>> = Vec::new();
    let mut i: usize = 0;
    while i < count
        invariant
            i <= count,
            lists@.len() == i,
            forall|s: int| 0 <= s < i ==> (#[trigger] lists@[s])@.len() == 0,
        decreases count - i,
    {
        lists.push(Vec::new());
        i += 1;
    }
    let mut n: usize = 0;
    proof {
        assert(steps.take(0) =~= Seq::empty());
        assert forall|s: int| 0 <= s < count implies steps_of((#[trigger] lists@[s])@) == steps_part(
            steps.take(0),
            route,
            s,
        ) by {
            assert(lists@[s]@ =~= Seq::empty());
        }
    }
    while n < leaves.len()
        invariant
            n <= leaves@.len(),
            all_leaves(leaves@),
            atoms(leaves@) == steps,
            unique_steps(steps),
            count >= 1,
            route == key_route::<K>(begin, count),
            begin == hasher@,
            lists@.len() == count,
            forall|s: int|
                0 <= s < count ==> steps_of((#[trigger] lists@[s])@) == steps_part(
                    steps.take(n as int),
                    route,
                    s,
                ),
        decreases leaves@.len() - n,
    {
        let leaf = leaves[n];
        let copy = leaf.clone_diff();
        proof {
            assert(steps[n as int] == leaf.atom());
            assert(change_key(steps[n as int]) is Some);
            assert(steps.take(n + 1).drop_last() =~= steps.take(n as int));
            assert(steps.take(n + 1).last() == leaf.atom());
            assert(!(leaf is Batch));
        }
        match leaf.atomic_key() {
            Some(key) => {
                let shard = shard_for(key, hasher, count);
                let ghost before = lists@;
                let mut list: Vec<MapDiff<K, V>> = Vec::new();
                std::mem::swap(&mut list, &mut lists[shard]);
                proof {
                    steps_of_push(list@, copy);
                }
                list.push(copy);
                lists.set(shard, list);
                proof {
                    assert forall|s: int| 0 <= s < count implies steps_of((#[trigger] lists@[s])@)
                        == steps_part(steps.take(n + 1), route, s) by {
                        let _ = before[s];
                        if s != shard {
                            assert(lists@[s] == before[s]);
                        }
                    }
                }
            },
            None => {},
        }
        n += 1;
    }
    assert(steps.take(n as int) =~= steps);
    let ghost filled = lists@;
    while lists.len() > 0
        invariant
            filled.len() == count,
            parts@.len() + lists@.len() == count,
            lists@ == filled.skip(parts@.len() as int),
            forall|s: int|
                0 <= s < parts@.len() ==> #[trigger] parts@[s] == (MapDiff::Batch {
                    changes: filled[s],
                }),
        decreases lists@.len(),
    {
        let ghost m = parts@.len() as int;
        let list = lists.remove(0);
        proof {
            assert(list == filled[m]);
            assert(lists@ =~= filled.skip(m + 1));
        }
        parts.push(MapDiff::Batch { changes: list });
    }
    proof {
        assert forall|s: int| 0 <= s < count implies (#[trigger] parts@[s]).steps() == steps_part(
            steps,
            route,
            s,
        ) && is_unit(&parts@[s]) by {
            let _ = filled[s];
            part_unique(steps, route, s);
        }
    }
    parts
}

/// The parts of each shard are those of the units, in order.
pub open spec fn parts_of<K: MapKey, V: CellValue>(
    units: Seq<&MapDiff<K, V>>,
    routed: Seq<Vec<MapDiff<K, V>>>,
    begin: FxSum,
    count: usize,
) -> bool {
    &&& routed.len() == count
    &&& forall|s: int| 0 <= s < count ==> (#[trigger] routed[s])@.len() == units.len()
    &&& forall|s: int, u: int|
        0 <= s < count && 0 <= u < units.len() ==> (#[trigger] routed[s]@[u]).steps() == steps_part(
            units[u].steps(),
            key_route::<K>(begin, count),
            s,
        ) && is_unit(&routed[s]@[u])
}

/// Divides units of changes among shards by key.
fn route_diff<K: MapKey, V: CellValue>(
    units: &Vec<&MapDiff<K, V>>,
    hasher: &FxState,
    count: usize,
) -> (routed: Vec<Vec<MapDiff<K, V>>>)
    requires
        count >= 1,
        forall|u: int| 0 <= u < units@.len() ==> unit_steps((#[trigger] units@[u]).steps()),
    ensures
        parts_of(units@, routed@, hasher@, count),
{
    let mut routed: Vec<Vec<MapDiff<K, V>>> = Vec::new();
    let mut i: usize = 0;
    while i < count
        invariant
            i <= count,
            routed@.len() == i,
            forall|s: int| 0 <= s < i ==> (#[trigger] routed@[s])@.len() == 0,
        decreases count - i,
    {
        routed.push(Vec::new());
        i += 1;
    }
    let mut u: usize = 0;
    while u < units.len()
        invariant
            u <= units@.len(),
            count >= 1,
            forall|x: int| 0 <= x < units@.len() ==> unit_steps((#[trigger] units@[x]).steps()),
            parts_of(units@.take(u as int), routed@, hasher@, count),
        decreases units@.len() - u,
    {
        let mut parts = route_unit(units[u], hasher, count);
        let ghost given = parts@;
        let ghost before = routed@;
        let mut s: usize = 0;
        while s < count
            invariant
                s <= count,
                given.len() == count,
                before.len() == count,
                routed@.len() == count,
                parts@ == given.skip(s as int),
                forall|x: int| 0 <= x < s ==> (#[trigger] routed@[x])@ == before[x]@.push(given[x]),
                forall|x: int| s <= x < count ==> #[trigger] routed@[x] == before[x],
            decreases count - s,
        {
            let ghost current = routed@;
            let part = parts.remove(0);
            let mut list: Vec<MapDiff<K, V>> = Vec::new();
            std::mem::swap(&mut list, &mut routed[s]);
            list.push(part);
            routed.set(s, list);
            proof {
                assert(part == given[s as int]);
                assert(parts@ =~= given.skip(s + 1));
                assert(current[s as int] == before[s as int]);
                assert forall|x: int| 0 <= x < s + 1 implies (#[trigger] routed@[x])@
                    == before[x]@.push(given[x]) by {
                    if x < s {
                        assert(routed@[x] == current[x]);
                    }
                }
                assert forall|x: int| s + 1 <= x < count implies #[trigger] routed@[x] == before[x] by {
                    assert(routed@[x] == current[x]);
                }
            }
            s += 1;
        }
        proof {
            let next = units@.take(u + 1);
            let prev = units@.take(u as int);
            assert forall|s: int| 0 <= s < count implies (#[trigger] routed@[s])@.len() == next.len() by {
                let _ = before[s];
            }
            assert forall|s: int, x: int| 0 <= s < count && 0 <= x < next.len() implies (
            #[trigger] routed@[s]@[x]).steps() == steps_part(
                next[x].steps(),
                key_route::<K>(hasher@, count),
                s,
            ) && is_unit(&routed@[s]@[x]) by {
                let _ = before[s];
                let _ = given[s];
                assert(routed@[s]@ == before[s]@.push(given[s]));
                if x < u {
                    assert(routed@[s]@[x] == before[s]@[x]);
                    assert(prev[x] == next[x]);
                } else {
                    assert(routed@[s]@[x] == given[s]);
                }
            }
        }
        u += 1;
    }
    assert(units@.take(u as int) =~= units@);
    routed
}

/// The rows of a shard before a unit.
pub open spec fn rows_before<K: MapKey, V: CellValue>(
    rows: Map<K::Model, V::Model>,
    parts: Seq<MapDiff<K, V>>,
    u: int,
) -> Map<K::Model, V::Model> {
    replay(rows, steps_of(parts.take(u)))
}

/// What working through units makes of a shard, and what it tells of each unit.
pub open spec fn units_done<S: RegionStages<K, Input>, K: MapKey, Input: CellValue>(
    stages: &S,
    rights: &S::Rights,
    shard: &S::Shard,
    parts: &Vec<MapDiff<K, Input>>,
    result: &(S::Shard, Vec<Vec<MapDiff<K, S::Output>>>),
) -> bool {
    let f = region_row::<S, K, Input>(*stages, *rights);
    let rows = stages.rows(*shard);
    &&& stages.sound(*rights, result.0)
    &&& stages.rows(result.0) == replay(rows, steps_of(parts@))
    &&& result.1@.len() == parts@.len()
    &&& forall|u: int|
        0 <= u < parts@.len() ==> flat((#[trigger] result.1@[u])@) && tells(
            piped(rows_before(rows, parts@, u), f),
            piped(rows_before(rows, parts@, u + 1), f),
            steps_of(result.1@[u]@),
        )
}

/// A shard that can work through its parts.
pub open spec fn units_ready<S: RegionStages<K, Input>, K: MapKey, Input: CellValue>(
    stages: &S,
    rights: &S::Rights,
    shard: &S::Shard,
    parts: &Vec<MapDiff<K, Input>>,
) -> bool {
    &&& stages.lawful()
    &&& stages.rights_wf(*rights)
    &&& stages.sound(*rights, *shard)
    &&& forall|u: int| 0 <= u < parts@.len() ==> is_unit(&#[trigger] parts@[u])
}

/// Works through the parts of a shard.
fn run_units<S: RegionStages<K, Input>, K: MapKey, Input: CellValue>(
    stages: &S,
    rights: &S::Rights,
    shard: S::Shard,
    parts: Vec<MapDiff<K, Input>>,
) -> (result: (S::Shard, Vec<Vec<MapDiff<K, S::Output>>>))
    requires
        units_ready::<S, K, Input>(stages, rights, &shard, &parts),
    ensures
        units_done::<S, K, Input>(stages, rights, &shard, &parts, &result),
{
    let ghost f = region_row::<S, K, Input>(*stages, *rights);
    let ghost rows = stages.rows(shard);
    let mut state = shard;
    let mut told: Vec<Vec<MapDiff<K, S::Output>>> = Vec::new();
    let mut u: usize = 0;
    assert(parts@.take(0) =~= Seq::empty());
    while u < parts.len()
        invariant
            u <= parts@.len(),
            stages.lawful(),
            stages.rights_wf(*rights),
            stages.sound(*rights, state),
            forall|x: int| 0 <= x < parts@.len() ==> is_unit(&#[trigger] parts@[x]),
            f == region_row::<S, K, Input>(*stages, *rights),
            stages.rows(state) == rows_before(rows, parts@, u as int),
            told@.len() == u,
            forall|x: int|
                0 <= x < u ==> flat((#[trigger] told@[x])@) && tells(
                    piped(rows_before(rows, parts@, x), f),
                    piped(rows_before(rows, parts@, x + 1), f),
                    steps_of(told@[x]@),
                ),
        decreases parts@.len() - u,
    {
        let ghost before = state;
        proof {
            let _ = parts@[u as int];
            stages.sound_output(*rights, before);
        }
        let changes = stages.apply_unit(rights, &mut state, &parts[u]);
        proof {
            stages.sound_output(*rights, state);
            let steps = parts@[u as int].steps();
            let out = stages.output(before);
            let out2 = stages.output(state);
            let keys = choose|keys: Seq<K::Model>|
                #![trigger delta(out, keys, out2)]
                touches_all(stages.rows(before), steps, Seq::empty(), keys) && keys.no_duplicates()
                    && steps_of(changes@) == delta(out, keys, out2) && put_all(out, keys, out2)
                    == out2;
            delta_tells(out, keys, out2);
            steps_of_push(parts@.take(u as int), parts@[u as int]);
            assert(parts@.take(u as int).push(parts@[u as int]) =~= parts@.take(u + 1));
            replay_concat(rows, steps_of(parts@.take(u as int)), steps);
            let g = |k: K::Model, v: Input::Model| stages.through(*rights, k, v);
            assert(piped(stages.rows(before), g) =~= piped(stages.rows(before), f));
            assert(piped(stages.rows(state), g) =~= piped(stages.rows(state), f));
        }
        told.push(changes);
        u += 1;
    }
    assert(parts@.take(u as int) =~= parts@);
    (state, told)
}

/// The work of each shard.
fn shard_works<K: MapKey, V: CellValue>(routed: &Vec<Vec<MapDiff<K, V>>>) -> (works: Vec<usize>)
    ensures
        works@.len() == routed@.len(),
        forall|s: int|
            0 <= s < works@.len() ==> #[trigger] works@[s] == saturated(
                work_of(steps_of(routed@[s]@)),
            ),
{
    let mut works: Vec<usize> = Vec::new();
    let mut s: usize = 0;
    while s < routed.len()
        invariant
            s <= routed@.len(),
            works@.len() == s,
            forall|x: int|
                0 <= x < s ==> #[trigger] works@[x] == saturated(work_of(steps_of(routed@[x]@))),
        decreases routed@.len() - s,
    {
        let parts = &routed[s];
        let mut work: usize = 0;
        let mut u: usize = 0;
        assert(parts@.take(0) =~= Seq::empty());
        while u < parts.len()
            invariant
                u <= parts@.len(),
                work == saturated(work_of(steps_of(parts@.take(u as int)))),
            decreases parts@.len() - u,
        {
            proof {
                steps_of_push(parts@.take(u as int), parts@[u as int]);
                assert(parts@.take(u as int).push(parts@[u as int]) =~= parts@.take(u + 1));
                work_concat(steps_of(parts@.take(u as int)), parts@[u as int].steps());
            }
            work = work.saturating_add(parts[u].work_items());
            u += 1;
        }
        assert(parts@.take(u as int) =~= parts@);
        works.push(work);
        s += 1;
    }
    works
}

proof fn work_concat<K, V>(a: Seq<Change<K, V>>, b: Seq<Change<K, V>>)
    ensures
        work_of(a + b) == work_of(a) + work_of(b),
    decreases b.len(),
{
    if b.len() == 0 {
        assert(a + b =~= a);
    } else {
        assert((a + b).drop_last() =~= a + b.drop_last());
        work_concat(a, b.drop_last());
    }
}

/// The number of shards with work.
pub open spec fn active_shards(works: Seq<usize>) -> nat
    decreases works.len(),
{
    if works.len() == 0 {
        0
    } else {
        active_shards(works.drop_last()) + (if works.last() != 0 {
            1nat
        } else {
            0
        })
    }
}

/// The largest work of a shard.
pub open spec fn largest_work(works: Seq<usize>) -> usize
    decreases works.len(),
{
    if works.len() == 0 {
        0
    } else if largest_work(works.drop_last()) < works.last() {
        works.last()
    } else {
        largest_work(works.drop_last())
    }
}

/// Whether the shards of a region work in parallel: there is enough work, more than one shard has
/// some, and none has more than three quarters of it.
pub open spec fn wants_parallel(
    active: bool,
    estimated: usize,
    work: usize,
    works: Seq<usize>,
) -> bool {
    &&& if active {
        estimated >= PARALLEL_REGION_WORK_EXIT
    } else {
        estimated >= PARALLEL_REGION_WORK_ENTER
    }
    &&& active_shards(works) > 1
    &&& saturated(largest_work(works) as nat * 4) <= saturated(work as nat * 3)
}

fn decide_parallel(
    active: bool,
    estimated: usize,
    work: usize,
    works: &Vec<usize>,
) -> (parallel: bool)
    ensures
        parallel == wants_parallel(active, estimated, work, works@),
{
    let hysteresis: bool = if active {
        estimated >= PARALLEL_REGION_WORK_EXIT
    } else {
        estimated >= PARALLEL_REGION_WORK_ENTER
    };
    let mut with_work: usize = 0;
    let mut largest: usize = 0;
    let mut s: usize = 0;
    assert(works@.take(0) =~= Seq::empty());
    while s < works.len()
        invariant
            s <= works@.len(),
            with_work <= s,
            with_work == active_shards(works@.take(s as int)),
            largest == largest_work(works@.take(s as int)),
        decreases works@.len() - s,
    {
        proof {
            assert(works@.take(s + 1).drop_last() =~= works@.take(s as int));
            assert(works@.take(s + 1).last() == works@[s as int]);
        }
        if works[s] != 0 {
            with_work += 1;
        }
        if largest < works[s] {
            largest = works[s];
        }
        s += 1;
    }
    assert(works@.take(s as int) =~= works@);
    hysteresis && with_work > 1 && times(largest, 4) <= times(work, 3)
}

/// A product, cut down to the largest number that the machine has.
fn times(a: usize, b: usize) -> (product: usize)
    ensures
        product == saturated(a as nat * b as nat),
{
    match a.checked_mul(b) {
        Some(product) => product,
        None => usize::MAX,
    }
}

impl<S: RegionStages<K, Input>, K: MapKey, Input: CellValue> RegionRouter<S, K, Input> {
    /// The estimated work of an event.
    pub open spec fn estimated(&self, steps: Seq<Change<K::Model, Input::Model>>) -> usize {
        saturated(
            saturated(work_of(steps)) as nat * saturated(self.stages().units()) as nat,
        )
    }

    /// The event has enough work to divide the region among shards.
    pub open spec fn warrants_shards(&self, steps: Seq<Change<K::Model, Input::Model>>) -> bool {
        &&& self.shard_count() > 1
        &&& saturated(work_of(steps)) >= self.promotion_work() || self.estimated(steps)
            >= PARALLEL_REGION_WORK_ENTER
    }

    /// Works through the units of an event with the shards, and tells each in the order of the
    /// touched keys.
    fn apply_sharded_left(
        &mut self,
        units: &Vec<&MapDiff<K, Input>>,
        orders: &Vec<FxMap<K, u64>>,
        diff: &MapDiff<K, Input>,
        pool: Option<&WorkerPool>,
    ) -> (output: Vec<MapDiff<K, S::Output>>)
        requires
            old(self).wf(),
            old(self).sharded(),
            old(self).room(diff.steps()),
            units_steps(units@) == diff.steps(),
            orders@.len() == units@.len(),
            forall|u: int| 0 <= u < units@.len() ==> unit_steps((#[trigger] units@[u]).steps()),
            forall|u: int|
                0 <= u < units@.len() ==> ranked(
                    (#[trigger] orders@[u])@,
                    unit_keys(
                        live_run(old(self).live(), units_steps(units@.take(u))),
                        units@[u].steps(),
                    ),
                ),
        ensures
            final(self).wf(),
            final(self).sharded(),
            final(self).stages() == old(self).stages(),
            final(self).rights() == old(self).rights(),
            final(self).rows() == replay(old(self).rows(), diff.steps()),
            final(self).live() == live_run(old(self).live(), diff.steps()),
            final(self).shard_count() == old(self).shard_count(),
            final(self).promotion_work() == old(self).promotion_work(),
            final(self).begin() == old(self).begin(),
            final(self).numbered() <= old(self).numbered() + work_of(diff.steps()),
            flat(output@),
            steps_of(output@) == trace(
                old(self).rows(),
                old(self).live(),
                diff.steps(),
                old(self).row(),
            ),
    {
        let ghost rows = self.rows@;
        let ghost live = self.arrivals.live();
        let ghost steps = diff.steps();
        let ghost f = self.row();
        let work = diff.work_items();
        let estimated = times(work, self.stages.cost_units());
        let mut output: Vec<MapDiff<K, S::Output>> = Vec::new();
        let stages = &self.stages;
        let rights = &self.rights;
        let hasher = &self.hasher;
        match &mut self.storage {
            RuntimeStorage::Serial(_) => {},
            RuntimeStorage::Sharded { runtime, parallel_active } => {
                let count: usize = runtime.len();
                let ghost begin = hasher@;
                let ghost route = key_route::<K>(begin, count);
                let routed = route_diff(units, hasher, count);
                let works = shard_works(&routed);
                let wanted = decide_parallel(*parallel_active, estimated, work, &works);
                *parallel_active = wanted && pool.is_some();
                let mut shards: Vec<S::Shard> = Vec::new();
                let ghost before = runtime@;
                shards.append(runtime);
                assert(shards@ =~= before);
                let ghost sent = routed@;
                let process = |shard: S::Shard, parts: Vec<MapDiff<K, Input>>| -> (result: (
                    S::Shard,
                    Vec<Vec<MapDiff<K, S::Output>>>,
                ))
                    requires
                        units_ready::<S, K, Input>(stages, rights, &shard, &parts),
                    ensures
                        units_done::<S, K, Input>(stages, rights, &shard, &parts, &result),
                    { run_units(stages, rights, shard, parts) };
                proof {
                    assert forall|s: int| 0 <= s < shards@.len() implies #[trigger] call_requires(
                        process,
                        (shards@[s], routed@[s]),
                    ) by {
                        let _ = before[s];
                        assert forall|u: int| 0 <= u < routed@[s]@.len() implies is_unit(
                            &#[trigger] routed@[s]@[u],
                        ) by {}
                    }
                }
                let results = match pool {
                    Some(pool) => if *parallel_active {
                        par_zip_map(&pool.pool, shards, routed, &process)
                    } else {
                        zip_map(shards, routed, &process)
                    },
                    None => zip_map(shards, routed, &process),
                };
                let (mut states, told) = unzip(results);
                let ghost after = states@;
                runtime.append(&mut states);
                assert(runtime@ =~= after);
                proof {
                    assert forall|s: int| 0 <= s < count implies units_done::<S, K, Input>(
                        stages,
                        rights,
                        &before[s],
                        &sent[s],
                        &(#[trigger] after[s], told@[s]),
                    ) && stages.sound(*rights, after[s]) && stages.rows(after[s]) == key_part(
                        replay(rows, steps),
                        route,
                        s,
                    ) by {
                        let _ = results@[s];
                        assert(results@[s] == (after[s], told@[s]));
                        let _ = before[s];
                        routed_steps_of(units@, sent, begin, count, s, units@.len() as int);
                        assert(units@.take(units@.len() as int) =~= units@);
                        assert(sent[s]@.take(units@.len() as int) =~= sent[s]@);
                        part_replay(rows, steps, route, s);
                    }
                }
                let mut u: usize = 0;
                proof {
                    assert(units@.take(0) =~= Seq::empty());
                }
                while u < units.len()
                    invariant
                        u <= units@.len(),
                        count >= 1,
                        count == before.len(),
                        count == after.len(),
                        count == sent.len(),
                        count == told@.len(),
                        route == key_route::<K>(begin, count),
                        f == region_row::<S, K, Input>(*stages, *rights),
                        live_of(live, rows),
                        parts_of(units@, sent, begin, count),
                        orders@.len() == units@.len(),
                        forall|x: int|
                            0 <= x < units@.len() ==> unit_steps((#[trigger] units@[x]).steps()),
                        forall|x: int|
                            0 <= x < units@.len() ==> ranked(
                                (#[trigger] orders@[x])@,
                                unit_keys(
                                    live_run(live, units_steps(units@.take(x))),
                                    units@[x].steps(),
                                ),
                            ),
                        forall|s: int|
                            0 <= s < count ==> stages.rows(#[trigger] before[s]) == key_part(
                                rows,
                                route,
                                s,
                            ),
                        forall|s: int|
                            0 <= s < count ==> units_done::<S, K, Input>(
                                stages,
                                rights,
                                &before[s],
                                &sent[s],
                                &(#[trigger] after[s], told@[s]),
                            ),
                        flat(output@),
                        steps_of(output@) == trace(rows, live, units_steps(units@.take(u as int)), f),
                    decreases units@.len() - u,
                {
                    let ghost done = units_steps(units@.take(u as int));
                    let ghost own = units@[u as int].steps();
                    let ghost r0 = replay(rows, done);
                    let ghost r1 = replay(r0, own);
                    let ghost l0 = live_run(live, done);
                    let ghost b = piped(r0, f);
                    let ghost a = piped(r1, f);
                    let mut phase: Vec<MapDiff<K, S::Output>> = Vec::new();
                    let mut s: usize = 0;
                    proof {
                        assert(units@.take(u + 1).drop_last() =~= units@.take(u as int));
                        assert(units@.take(u + 1).last() == units@[u as int]);
                        replay_concat(rows, done, own);
                        shard_bounds::<K>(begin, count);
                    }
                    while s < count
                        invariant
                            s <= count,
                            count >= 1,
                            count == before.len(),
                            count == after.len(),
                            count == sent.len(),
                            count == told@.len(),
                            u < units@.len(),
                            route == key_route::<K>(begin, count),
                            f == region_row::<S, K, Input>(*stages, *rights),
                            parts_of(units@, sent, begin, count),
                            done == units_steps(units@.take(u as int)),
                            own == units@[u as int].steps(),
                            units@.take(u + 1).drop_last() == units@.take(u as int),
                            units@.take(u + 1).last() == units@[u as int],
                            r0 == replay(rows, done),
                            r1 == replay(rows, done + own),
                            b == piped(r0, f),
                            a == piped(r1, f),
                            forall|s: int|
                                0 <= s < count ==> stages.rows(#[trigger] before[s]) == key_part(
                                    rows,
                                    route,
                                    s,
                                ),
                            forall|s: int|
                                0 <= s < count ==> units_done::<S, K, Input>(
                                    stages,
                                    rights,
                                    &before[s],
                                    &sent[s],
                                    &(#[trigger] after[s], told@[s]),
                                ),
                            flat(phase@),
                            tells_upto(b, a, steps_of(phase@), route, s as int),
                        decreases count - s,
                    {
                        let ghost sofar = phase@;
                        proof {
                            let _ = before[s as int];
                            let _ = after[s as int];
                            let _ = sent[s as int];
                            let _ = told@[s as int]@[u as int];
                        }
                        assert(told@[s as int]@.len() == units@.len());
                        let mut more = clone_diffs(&told[s][u]);
                        proof {
                            let si = s as int;
                            let ui = u as int;
                            let part_rows = key_part(rows, route, si);
                            routed_steps_of(units@, sent, begin, count, si, ui);
                            routed_steps_of(units@, sent, begin, count, si, ui + 1);
                            part_replay(rows, done, route, si);
                            part_replay(rows, done + own, route, si);
                            let p0 = rows_before(part_rows, sent[si]@, ui);
                            let p1 = rows_before(part_rows, sent[si]@, ui + 1);
                            assert(p0 == key_part(r0, route, si));
                            assert(p1 == key_part(r1, route, si));
                            assert forall|k: K::Model| #[trigger] lookup(piped(p0, f), k) == if route(k)
                                == si {
                                lookup(b, k)
                            } else {
                                None
                            } by {
                                piped_part(r0, f, route, si, k);
                            }
                            assert forall|k: K::Model| #[trigger] lookup(piped(p1, f), k) == if route(k)
                                == si {
                                lookup(a, k)
                            } else {
                                None
                            } by {
                                piped_part(r1, f, route, si, k);
                            }
                            tells_upto_next(
                                b,
                                a,
                                steps_of(sofar),
                                route,
                                si,
                                piped(p0, f),
                                piped(p1, f),
                                steps_of(more@),
                            );
                            steps_of_concat(sofar, more@);
                            flat_concat(sofar, more@);
                        }
                        phase.append(&mut more);
                        s += 1;
                    }
                    let ordered = order_changes(&orders[u], phase);
                    let ghost sofar = output@;
                    proof {
                        tells_upto_all(b, a, steps_of(phase@), route, count as int);
                        live_of_run(live, rows, done);
                        unit_told(r0, l0, own, f);
                        let keys = unit_keys(l0, own);
                        let _ = orders@[u as int];
                        ranked_grows(orders@[u as int]@, keys);
                        ordered_tells(
                            orders@[u as int]@,
                            b,
                            a,
                            steps_of(phase@),
                            steps_of(ordered@),
                            keys,
                        );
                        trace_concat(rows, live, done, own, f);
                        steps_of_concat(sofar, ordered@);
                        flat_concat(sofar, ordered@);
                    }
                    let mut ordered = ordered;
                    output.append(&mut ordered);
                    u += 1;
                }
                proof {
                    assert(units@.take(u as int) =~= units@);
                }
            },
        }
        self.rows = Ghost(replay(rows, steps));
        proof {
            live_of_run(live, rows, steps);
        }
        self.arrivals.remember(diff);
        output
    }

    /// Follows a diff of the rows, and tells how the output changes: change by change, each touched
    /// key in the order of its place among the rows. What is told is the same whether one runtime
    /// or several shards do the work.
    pub fn apply_left(&mut self, diff: &MapDiff<K, Input>, pool: Option<&WorkerPool>) -> (output: Vec<
        MapDiff<K, S::Output>,
    >)
        requires
            old(self).wf(),
            old(self).room(diff.steps()),
        ensures
            final(self).wf(),
            final(self).sharded() == (old(self).sharded() || old(self).warrants_shards(diff.steps())),
            final(self).stages() == old(self).stages(),
            final(self).rights() == old(self).rights(),
            final(self).rows() == replay(old(self).rows(), diff.steps()),
            final(self).live() == live_run(old(self).live(), diff.steps()),
            final(self).shard_count() == old(self).shard_count(),
            final(self).promotion_work() == old(self).promotion_work(),
            final(self).begin() == old(self).begin(),
            final(self).numbered() <= old(self).numbered() + work_of(diff.steps()),
            told_as(diff, output@),
            steps_of(output@) == trace(
                old(self).rows(),
                old(self).live(),
                diff.steps(),
                old(self).row(),
            ),
            fits_all(old(self).output(), steps_of(output@)),
            replay(old(self).output(), steps_of(output@)) == final(self).output(),
    {
        let ghost steps = diff.steps();
        let ghost live = self.arrivals.live();
        let ghost rows = self.rows@;
        proof {
            trace_replays(rows, live, steps, self.row());
        }
        let is_batch: bool = match diff {
            MapDiff::Batch { .. } => true,
            _ => false,
        };
        let unique = batch_has_unique_atomic_keys(diff);
        let non_unique_batch: bool = is_batch && !unique;
        let work = diff.work_items();
        let estimated = times(work, self.stages.cost_units());
        let warranted: bool = self.shard_count > 1 && (work >= self.promotion_work || estimated
            >= PARALLEL_REGION_WORK_ENTER);
        if self.storage.is_serial() {
            if !warranted {
                return self.apply_serial_left(diff, non_unique_batch);
            }
            self.promote();
        }
        let mut units: Vec<&MapDiff<K, Input>> = Vec::new();
        let mut orders: Vec<FxMap<K, u64>> = Vec::new();
        if non_unique_batch {
            orders = self.arrivals.event_orders(diff);
            units = diff.leaves();
            proof {
                units_of_leaves(units@);
                assert forall|u: int| 0 <= u < units@.len() implies unit_steps(
                    (#[trigger] units@[u]).steps(),
                ) && ranked(
                    orders@[u]@,
                    unit_keys(live_run(live, units_steps(units@.take(u))), units@[u].steps()),
                ) by {
                    assert(!(units@[u] is Batch));
                    assert(units@[u].steps() =~= seq![steps[u]]);
                    let part = units@.take(u);
                    assert forall|i: int| 0 <= i < part.len() implies !((#[trigger] part[i]) is Batch) by {
                        assert(!(units@[i] is Batch));
                    }
                    units_of_leaves(part);
                    assert(atoms(part) =~= steps.take(u));
                    let _ = orders@[u];
                }
            }
        } else {
            let order = self.arrivals.merge_order(diff);
            units.push(diff);
            orders.push(order);
            proof {
                assert(units@.take(0) =~= Seq::empty());
                assert(units@.drop_last() =~= Seq::empty());
                assert(units@.last() == diff);
                assert(units_steps(units@) == units_steps(units@.drop_last()) + units@.last().steps());
                assert(units_steps(units@.drop_last()) =~= Seq::empty());
                assert(units_steps(units@) =~= steps);
                if !is_batch {
                    leaf_order(live, steps, self.arrivals.numbers(), self.arrivals.next());
                } else {
                    assert(unique_steps(steps));
                    unique_work(steps);
                    unique_order(live, steps);
                    if steps.len() == 1 {
                        assert(change_key(steps[0]) is Some);
                        assert(step_keys(steps) =~= canon_keys(live, steps[0]));
                    }
                }
                assert(unit_steps(units@[0].steps()));
            }
        }
        let output = self.apply_sharded_left(&units, &orders, diff, pool);
        if is_batch {
            one_batch(output)
        } else {
            output
        }
    }
}

proof fn unique_work<K, V>(steps: Seq<Change<K, V>>)
    requires
        unique_steps(steps),
    ensures
        work_of(steps) == steps.len(),
    decreases steps.len(),
{
    if steps.len() > 0 {
        let rest = steps.drop_last();
        assert forall|i: int| 0 <= i < rest.len() implies change_key(#[trigger] rest[i]) is Some by {
            assert(rest[i] == steps[i]);
        }
        assert forall|i: int, j: int| 0 <= i < j < rest.len() implies change_key(#[trigger] rest[i])
            != change_key(#[trigger] rest[j]) by {
            assert(rest[i] == steps[i] && rest[j] == steps[j]);
        }
        unique_work(rest);
        assert(change_key(steps[steps.len() - 1]) is Some);
    }
}

proof fn shard_bounds<K: MapKey>(begin: FxSum, count: usize)
    requires
        count >= 1,
    ensures
        forall|k: K::Model| 0 <= #[trigger] key_route::<K>(begin, count)(k) < count,
{
}

/// The changes that a shard gets of the first units.
proof fn routed_steps_of<K: MapKey, V: CellValue>(
    units: Seq<&MapDiff<K, V>>,
    routed: Seq<Vec<MapDiff<K, V>>>,
    begin: FxSum,
    count: usize,
    s: int,
    u: int,
)
    requires
        parts_of(units, routed, begin, count),
        0 <= s < count,
        0 <= u <= units.len(),
    ensures
        steps_of(routed[s]@.take(u)) == steps_part(
            units_steps(units.take(u)),
            key_route::<K>(begin, count),
            s,
        ),
    decreases u,
{
    let parts = routed[s]@;
    if u > 0 {
        routed_steps_of(units, routed, begin, count, s, u - 1);
        steps_of_push(parts.take(u - 1), parts[u - 1]);
        assert(parts.take(u - 1).push(parts[u - 1]) =~= parts.take(u));
        assert(units.take(u).drop_last() =~= units.take(u - 1));
        assert(units.take(u).last() == units[u - 1]);
        steps_part_concat(
            units_steps(units.take(u - 1)),
            units[u - 1].steps(),
            key_route::<K>(begin, count),
            s,
        );
        let _ = routed[s]@[u - 1];
    } else {
        assert(parts.take(0) =~= Seq::empty());
        assert(units.take(0) =~= Seq::empty());
    }
}

fn clone_diffs<
    K: CellValue,
    V: CellValue,
>(diffs: &Vec<MapDiff<K, V>>) -> (copies: Vec<MapDiff<K, V>>)
    requires
        flat(diffs@),
    ensures
        flat(copies@),
        steps_of(copies@) == steps_of(diffs@),
{
    let mut copies: Vec<MapDiff<K, V>> = Vec::new();
    let mut i: usize = 0;
    assert(diffs@.take(0) =~= Seq::empty());
    while i < diffs.len()
        invariant
            i <= diffs@.len(),
            flat(diffs@),
            flat(copies@),
            steps_of(copies@) == steps_of(diffs@.take(i as int)),
        decreases diffs@.len() - i,
    {
        let copy = diffs[i].clone_diff();
        proof {
            assert(!(diffs@[i as int] is Batch));
            steps_of_push(copies@, copy);
            steps_of_push(diffs@.take(i as int), diffs@[i as int]);
            assert(diffs@.take(i as int).push(diffs@[i as int]) =~= diffs@.take(i + 1));
        }
        copies.push(copy);
        i += 1;
    }
    assert(diffs@.take(i as int) =~= diffs@);
    copies
}

/// The right rows go from one state to another, change by change.
pub open spec fn right_chain<
    Location,
    S: RightRoot<Location, K, Input, RK, RV>,
    K: MapKey,
    Input: CellValue,
    RK: MapKey,
    RV: CellValue,
>(stages: S, chain: Seq<S::Rights>, steps: Seq<Change<RK::Model, RV::Model>>) -> bool {
    &&& chain.len() == steps.len() + 1
    &&& forall|i: int|
        0 <= i < steps.len() ==> stages.right_run(chain[i], seq![#[trigger] steps[i]], chain[i + 1])
}

/// What is told as the right rows go from one state to another, change by change.
pub open spec fn right_told<
    Location,
    S: RightRoot<Location, K, Input, RK, RV>,
    K: MapKey,
    Input: CellValue,
    RK: MapKey,
    RV: CellValue,
>(
    stages: S,
    rows: Map<K::Model, Input::Model>,
    live: Seq<K::Model>,
    before: S::Rights,
    steps: Seq<Change<RK::Model, RV::Model>>,
    after: S::Rights,
    told: Seq<Change<K::Model, <S::Output as CellValue>::Model>>,
) -> bool {
    exists|chain: Seq<S::Rights>|
        #![trigger right_trace::<S, K, Input>(stages, rows, live, chain)]
        right_chain::<Location, S, K, Input, RK, RV>(stages, chain, steps) && chain[0] == before
            && chain.last() == after && told == right_trace::<S, K, Input>(stages, rows, live, chain)
}

proof fn right_chains_agree<
    Location,
    S: RightRoot<Location, K, Input, RK, RV>,
    K: MapKey,
    Input: CellValue,
    RK: MapKey,
    RV: CellValue,
>(
    stages: S,
    rows: Map<K::Model, Input::Model>,
    live: Seq<K::Model>,
    steps: Seq<Change<RK::Model, RV::Model>>,
    a: Seq<S::Rights>,
    b: Seq<S::Rights>,
)
    requires
        right_chain::<Location, S, K, Input, RK, RV>(stages, a, steps),
        right_chain::<Location, S, K, Input, RK, RV>(stages, b, steps),
        stages.same_rights(a[0], b[0]),
    ensures
        stages.same_rights(a.last(), b.last()),
        right_trace::<S, K, Input>(stages, rows, live, a) == right_trace::<S, K, Input>(
            stages,
            rows,
            live,
            b,
        ),
    decreases steps.len(),
{
    if steps.len() > 0 {
        let n = steps.len() - 1;
        let rest = steps.drop_last();
        let x = a.drop_last();
        let y = b.drop_last();
        assert forall|i: int| 0 <= i < rest.len() implies stages.right_run(
            x[i],
            seq![#[trigger] rest[i]],
            x[i + 1],
        ) && stages.right_run(y[i], seq![rest[i]], y[i + 1]) by {
            assert(steps[i] == rest[i]);
        }
        right_chains_agree::<Location, S, K, Input, RK, RV>(stages, rows, live, rest, x, y);
        let _ = steps[n];
        stages.right_run_same(a[n], b[n], seq![steps[n]], a[n + 1], b[n + 1]);
        same_region_row::<S, K, Input>(stages, a[n], b[n]);
        same_region_row::<S, K, Input>(stages, a[n + 1], b[n + 1]);
    }
}

proof fn same_region_row<S: RuntimeStages<K, Input>, K: MapKey, Input: CellValue>(
    stages: S,
    a: S::Rights,
    b: S::Rights,
)
    requires
        stages.same_rights(a, b),
    ensures
        region_row::<S, K, Input>(stages, a) == region_row::<S, K, Input>(stages, b),
{
    let f = region_row::<S, K, Input>(stages, a);
    let g = region_row::<S, K, Input>(stages, b);
    assert forall|k: K::Model, v: Input::Model| #[trigger] f(k, v) == g(k, v) by {
        stages.same_through(a, b, k, v);
    }
    assert(f =~= g);
}

/// What is told of a right diff does not depend on how the work is divided: the stages, the rows, the
/// order in which they came and the right rows decide it. One runtime and shards tell the same list.
pub proof fn right_diffs_tell_the_same<
    Location,
    S: RightRoot<Location, K, Input, RK, RV>,
    K: MapKey,
    Input: CellValue,
    RK: MapKey,
    RV: CellValue,
>(
    stages: S,
    rows: Map<K::Model, Input::Model>,
    live: Seq<K::Model>,
    steps: Seq<Change<RK::Model, RV::Model>>,
    a: S::Rights,
    next_a: S::Rights,
    told_a: Seq<Change<K::Model, <S::Output as CellValue>::Model>>,
    b: S::Rights,
    next_b: S::Rights,
    told_b: Seq<Change<K::Model, <S::Output as CellValue>::Model>>,
)
    requires
        stages.same_rights(a, b),
        right_told::<Location, S, K, Input, RK, RV>(stages, rows, live, a, steps, next_a, told_a),
        right_told::<Location, S, K, Input, RK, RV>(stages, rows, live, b, steps, next_b, told_b),
    ensures
        told_a == told_b,
        stages.same_rights(next_a, next_b),
{
    let x = choose|chain: Seq<S::Rights>|
        #![trigger right_trace::<S, K, Input>(stages, rows, live, chain)]
        right_chain::<Location, S, K, Input, RK, RV>(stages, chain, steps) && chain[0] == a
            && chain.last() == next_a && told_a == right_trace::<S, K, Input>(
            stages,
            rows,
            live,
            chain,
        );
    let y = choose|chain: Seq<S::Rights>|
        #![trigger right_trace::<S, K, Input>(stages, rows, live, chain)]
        right_chain::<Location, S, K, Input, RK, RV>(stages, chain, steps) && chain[0] == b
            && chain.last() == next_b && told_b == right_trace::<S, K, Input>(
            stages,
            rows,
            live,
            chain,
        );
    right_chains_agree::<Location, S, K, Input, RK, RV>(stages, rows, live, steps, x, y);
}

/// Numbers that grow along the keys of the rows, as an order.
proof fn sequenced_grows<K>(numbers: Map<K, u64>, next: u64, live: Seq<K>)
    requires
        sequenced(numbers, next, live),
    ensures
        forall|i: int| 0 <= i < live.len() ==> numbers.contains_key(#[trigger] live[i]),
        forall|i: int, j: int|
            0 <= i < j < live.len() ==> numbers[#[trigger] live[i]] < numbers[#[trigger] live[j]],
{
    assert forall|i: int| 0 <= i < live.len() implies numbers.contains_key(#[trigger] live[i]) by {
        assert(live.contains(live[i]));
    }
}

proof fn piped_outside<K, V, O>(
    rows: Map<K, V>,
    live: Seq<K>,
    f: spec_fn(K, V) -> Option<O>,
    g: spec_fn(K, V) -> Option<O>,
)
    requires
        live_of(live, rows),
    ensures
        forall|k: K|
            !live.contains(k) ==> #[trigger] lookup(piped(rows, f), k) == lookup(piped(rows, g), k),
{
    assert forall|k: K| !live.contains(k) implies #[trigger] lookup(piped(rows, f), k) == lookup(
        piped(rows, g),
        k,
    ) by {
        assert(!rows.contains_key(k));
        piped_lookup(rows, f, k);
        piped_lookup(rows, g, k);
    }
}

impl<S: RegionStages<K, Input>, K: MapKey, Input: CellValue> RegionRouter<S, K, Input> {
    /// The event divides the region among shards, or finds it divided.
    pub open spec fn right_shards<RK, RV>(&self, steps: Seq<Change<RK, RV>>) -> bool {
        self.sharded() || (self.shard_count() > 1 && saturated(work_of(steps))
            >= self.promotion_work())
    }

    /// Whether the right rows of a stage can follow a diff: in one runtime any, among shards one whose
    /// changes name the join keys that their rows have by then.
    pub fn takes_right<Location, RK: MapKey, RV: CellValue>(&self, diff: &MapDiff<RK, RV>) -> (takes:
        bool) where S: RightRoot<Location, K, Input, RK, RV>
        requires
            self.wf(),
        ensures
            takes == (self.right_shards(diff.steps()) ==> self.stages().names_all(
                self.rights(),
                diff.steps(),
            )),
    {
        if self.storage.is_serial() && !(self.shard_count > 1 && diff.work_items()
            >= self.promotion_work) {
            return true;
        }
        self.stages.names_right_root(&self.rights, diff)
    }

    /// Lets the right rows of a stage follow one change, and tells how the output changes, in the
    /// order in which the rows came.
    fn apply_right_leaf<Location, RK: MapKey, RV: CellValue>(&mut self, leaf: &MapDiff<RK, RV>) -> (changes:
        Vec<MapDiff<K, S::Output>>) where S: RightRoot<Location, K, Input, RK, RV>
        requires
            old(self).wf(),
            !(leaf is Batch),
            old(self).sharded() ==> old(self).stages().names_all(
                old(self).rights(),
                seq![leaf.atom()],
            ),
        ensures
            final(self).wf(),
            final(self).sharded() == old(self).sharded(),
            final(self).stages() == old(self).stages(),
            final(self).rows() == old(self).rows(),
            final(self).live() == old(self).live(),
            final(self).shard_count() == old(self).shard_count(),
            final(self).promotion_work() == old(self).promotion_work(),
            final(self).begin() == old(self).begin(),
            final(self).arrivals == old(self).arrivals,
            final(self).stages().right_run(
                old(self).rights(),
                seq![leaf.atom()],
                final(self).rights(),
            ),
            flat(changes@),
            steps_of(changes@) == delta(old(self).output(), old(self).live(), final(self).output()),
    {
        let ghost rows = self.rows@;
        let ghost live = self.arrivals.live();
        let ghost before = self.rights;
        let ghost f = self.row();
        let mut phase: Vec<MapDiff<K, S::Output>> = Vec::new();
        let stages = &self.stages;
        let rights = &mut self.rights;
        let hasher = &self.hasher;
        match &mut self.storage {
            RuntimeStorage::Serial(shard) => {
                let ghost start = *shard;
                proof {
                    stages.sound_output(before, start);
                }
                phase = stages.apply_right_root(rights, shard, leaf);
                proof {
                    stages.sound_output(*rights, *shard);
                    told_of_shard::<S, K, Input>(
                        *stages,
                        before,
                        *rights,
                        start,
                        *shard,
                        steps_of(phase@),
                    );
                }
            },
            RuntimeStorage::Sharded { runtime, .. } => {
                let count: usize = runtime.len();
                let ghost begin = hasher@;
                let ghost route = key_route::<K>(begin, count);
                let ghost all = runtime@;
                let mut s: usize = 0;
                proof {
                    let _ = all[0];
                    stages.sound_output(before, all[0]);
                }
                let mut first = stages.apply_right_root(rights, &mut runtime[0], leaf);
                let ghost g = region_row::<S, K, Input>(*stages, *rights);
                let ghost b = piped(rows, f);
                let ghost a = piped(rows, g);
                proof {
                    let state = runtime@[0];
                    stages.sound_output(*rights, state);
                    told_of_shard::<S, K, Input>(
                        *stages,
                        before,
                        *rights,
                        all[0],
                        state,
                        steps_of(first@),
                    );
                    assert(tells_upto(b, a, Seq::empty(), route, 0));
                    part_outputs(rows, f, g, route, 0);
                    tells_upto_next(
                        b,
                        a,
                        Seq::empty(),
                        route,
                        0,
                        piped(key_part(rows, route, 0), f),
                        piped(key_part(rows, route, 0), g),
                        steps_of(first@),
                    );
                    assert(Seq::empty() + steps_of(first@) =~= steps_of(first@));
                    assert forall|x: int| 1 <= x < count implies #[trigger] runtime@[x] == all[x] by {}
                }
                phase.append(&mut first);
                assert(phase@ =~= Seq::empty() + phase@);
                s = 1;
                while s < count
                    invariant
                        1 <= s <= count,
                        count == all.len(),
                        count == runtime@.len(),
                        route == key_route::<K>(begin, count),
                        stages.lawful(),
                        stages.rights_wf(*rights),
                        stages.rights_wf(before),
                        stages.right_run(before, seq![leaf.atom()], *rights),
                        stages.names_all(before, seq![leaf.atom()]),
                        !(leaf is Batch),
                        f == region_row::<S, K, Input>(*stages, before),
                        g == region_row::<S, K, Input>(*stages, *rights),
                        b == piped(rows, f),
                        a == piped(rows, g),
                        forall|x: int|
                            0 <= x < count ==> stages.sound(before, #[trigger] all[x])
                                && stages.rows(all[x]) == key_part(rows, route, x),
                        forall|x: int|
                            0 <= x < s ==> stages.sound(*rights, #[trigger] runtime@[x])
                                && stages.rows(runtime@[x]) == key_part(rows, route, x),
                        forall|x: int| s <= x < count ==> #[trigger] runtime@[x] == all[x],
                        flat(phase@),
                        tells_upto(b, a, steps_of(phase@), route, s as int),
                    decreases count - s,
                {
                    let ghost current = runtime@;
                    let ghost sofar = phase@;
                    proof {
                        let _ = all[s as int];
                        let _ = current[s as int];
                        stages.sound_output(before, all[s as int]);
                        observing_first::<Location, S, K, Input, RK, RV>(
                            *stages,
                            before,
                            seq![leaf.atom()],
                            *rights,
                            all[s as int],
                        );
                    }
                    let ghost pair = seq![before, *rights];
                    let ghost none: Seq<Change<RK::Model, RV::Model>> = Seq::empty();
                    let mut more = stages.observe_right_root(
                        rights,
                        &mut runtime[s],
                        leaf,
                        Ghost(pair),
                        Ghost(none),
                    );
                    proof {
                        let si = s as int;
                        let state = runtime@[si];
                        assert(none.push(leaf.atom()) =~= seq![leaf.atom()]);
                        observing_last::<Location, S, K, Input, RK, RV>(
                            *stages,
                            before,
                            seq![leaf.atom()],
                            *rights,
                            state,
                        );
                        stages.sound_output(*rights, state);
                        told_of_shard::<S, K, Input>(
                            *stages,
                            before,
                            *rights,
                            all[si],
                            state,
                            steps_of(more@),
                        );
                        part_outputs(rows, f, g, route, si);
                        tells_upto_next(
                            b,
                            a,
                            steps_of(sofar),
                            route,
                            si,
                            piped(key_part(rows, route, si), f),
                            piped(key_part(rows, route, si), g),
                            steps_of(more@),
                        );
                        steps_of_concat(sofar, more@);
                        flat_concat(sofar, more@);
                        assert forall|x: int| 0 <= x < s + 1 implies stages.sound(
                            *rights,
                            #[trigger] runtime@[x],
                        ) && stages.rows(runtime@[x]) == key_part(rows, route, x) by {
                            if x < s {
                                assert(runtime@[x] == current[x]);
                            }
                        }
                        assert forall|x: int| s + 1 <= x < count implies #[trigger] runtime@[x]
                            == all[x] by {
                            assert(runtime@[x] == current[x]);
                        }
                    }
                    phase.append(&mut more);
                    s += 1;
                }
                proof {
                    shard_bounds::<K>(begin, count);
                    tells_upto_all(b, a, steps_of(phase@), route, count as int);
                }
            },
        }
        let ghost now = seq![self.rights];
        self.past = Ghost(now);
        let ordered = order_changes(self.arrivals.number_map(), phase);
        proof {
            let g = self.row();
            sequenced_grows(self.arrivals.numbers(), self.arrivals.next(), live);
            piped_outside(rows, live, f, g);
            ordered_tells(
                self.arrivals.numbers(),
                piped(rows, f),
                piped(rows, g),
                steps_of(phase@),
                steps_of(ordered@),
                live,
            );
        }
        ordered
    }

    /// Lets the right rows of a stage follow a diff, and tells how the output changes: change by
    /// change, in the order in which the rows came. What is told is the same whether one runtime or
    /// several shards do the work.
    pub fn apply_right<Location, RK: MapKey, RV: CellValue>(&mut self, diff: &MapDiff<RK, RV>) -> (output:
        Vec<MapDiff<K, S::Output>>) where S: RightRoot<Location, K, Input, RK, RV>
        requires
            old(self).wf(),
            old(self).right_shards(diff.steps()) ==> old(self).stages().names_all(
                old(self).rights(),
                diff.steps(),
            ),
        ensures
            final(self).wf(),
            final(self).sharded() == old(self).right_shards(diff.steps()),
            final(self).stages() == old(self).stages(),
            final(self).rows() == old(self).rows(),
            final(self).live() == old(self).live(),
            final(self).shard_count() == old(self).shard_count(),
            final(self).promotion_work() == old(self).promotion_work(),
            final(self).begin() == old(self).begin(),
            final(self).numbered() == old(self).numbered(),
            final(self).stages().right_run(old(self).rights(), diff.steps(), final(self).rights()),
            told_as(diff, output@),
            right_told::<Location, S, K, Input, RK, RV>(
                old(self).stages(),
                old(self).rows(),
                old(self).live(),
                old(self).rights(),
                diff.steps(),
                final(self).rights(),
                steps_of(output@),
            ),
            fits_all(old(self).output(), steps_of(output@)),
            replay(old(self).output(), steps_of(output@)) == final(self).output(),
    {
        let ghost steps = diff.steps();
        let ghost stages = self.stages;
        let ghost start = self.rights;
        let ghost rows = self.rows@;
        let ghost live = self.arrivals.live();
        let ghost f = self.row();
        if self.storage.is_serial() && self.shard_count > 1 && diff.work_items()
            >= self.promotion_work {
            self.promote();
        }
        let ghost sharded = self.sharded();
        let leaves = diff.leaves();
        let mut output: Vec<MapDiff<K, S::Output>> = Vec::new();
        let ghost mut chain: Seq<S::Rights> = seq![start];
        let mut i: usize = 0;
        proof {
            stages.right_run_none(start);
            assert(steps.take(0) =~= Seq::empty());
            assert(right_chain::<Location, S, K, Input, RK, RV>(stages, chain, steps.take(0)));
        }
        while i < leaves.len()
            invariant
                i <= leaves@.len(),
                all_leaves(leaves@),
                atoms(leaves@) == steps,
                self.wf(),
                self.sharded() == sharded,
                self.stages() == stages,
                self.rows() == rows,
                self.live() == live,
                self.shard_count() == old(self).shard_count(),
                self.promotion_work() == old(self).promotion_work(),
                self.begin() == old(self).begin(),
                self.numbered() == old(self).numbered(),
                sharded ==> stages.names_all(start, steps),
                stages.right_run(start, steps.take(i as int), self.rights()),
                right_chain::<Location, S, K, Input, RK, RV>(stages, chain, steps.take(i as int)),
                chain[0] == start,
                chain.last() == self.rights(),
                f == region_row::<S, K, Input>(stages, start),
                live_of(live, rows),
                flat(output@),
                steps_of(output@) == right_trace::<S, K, Input>(stages, rows, live, chain),
                fits_all(piped(rows, f), steps_of(output@)),
                replay(piped(rows, f), steps_of(output@)) == self.output(),
            decreases leaves@.len() - i,
        {
            let ghost mid = self.rights;
            let ghost sofar = output@;
            let ghost out = self.output();
            let ghost part = steps.take(i as int);
            let ghost c = steps[i as int];
            proof {
                assert(c == leaves@[i as int].atom());
                if sharded {
                    stages.names_next(start, steps, i as int, mid);
                }
            }
            let mut more = self.apply_right_leaf::<Location, RK, RV>(leaves[i]);
            proof {
                let next = self.rights;
                stages.right_run_next(start, part, mid, c, next);
                assert(part.push(c) =~= steps.take(i + 1));
                let longer = chain.push(next);
                assert(longer.drop_last() =~= chain);
                assert(longer[longer.len() - 2] == mid);
                assert forall|n: int| 0 <= n < steps.take(i + 1).len() implies stages.right_run(
                    longer[n],
                    seq![#[trigger] steps.take(i + 1)[n]],
                    longer[n + 1],
                ) by {
                    if n < i {
                        assert(part[n] == steps.take(i + 1)[n]);
                        assert(longer[n] == chain[n] && longer[n + 1] == chain[n + 1]);
                    }
                }
                piped_outside(rows, live, self.row(), region_row::<S, K, Input>(stages, mid));
                let out2 = self.output();
                put_all_covers(out, live, out2);
                delta_replays(out, live, out2);
                replay_concat(piped(rows, f), steps_of(sofar), steps_of(more@));
                steps_of_concat(sofar, more@);
                flat_concat(sofar, more@);
                chain = longer;
            }
            output.append(&mut more);
            i += 1;
        }
        proof {
            assert(steps.take(i as int) =~= steps);
            assert(steps_of(output@) == right_trace::<S, K, Input>(stages, rows, live, chain));
        }
        match diff {
            MapDiff::Batch { .. } => one_batch(output),
            _ => output,
        }
    }
}

/// What a shard tells takes what the stages made of its rows to what they make of them now.
proof fn told_of_shard<S: RuntimeStages<K, Input>, K: MapKey, Input: CellValue>(
    stages: S,
    before: S::Rights,
    after: S::Rights,
    old_shard: S::Shard,
    new_shard: S::Shard,
    told: Seq<Change<K::Model, <S::Output as CellValue>::Model>>,
)
    requires
        stages.sound(before, old_shard),
        stages.sound(after, new_shard),
        stages.rows(new_shard) == stages.rows(old_shard),
        exists|keys: Seq<K::Model>|
            #![trigger delta(stages.output(old_shard), keys, stages.output(new_shard))]
            keys.no_duplicates() && told == delta(
                stages.output(old_shard),
                keys,
                stages.output(new_shard),
            ) && put_all(stages.output(old_shard), keys, stages.output(new_shard)) == stages.output(
                new_shard,
            ),
    ensures
        tells(
            piped(stages.rows(old_shard), region_row::<S, K, Input>(stages, before)),
            piped(stages.rows(old_shard), region_row::<S, K, Input>(stages, after)),
            told,
        ),
{
    stages.sound_output(before, old_shard);
    stages.sound_output(after, new_shard);
    let rows = stages.rows(old_shard);
    let out = stages.output(old_shard);
    let out2 = stages.output(new_shard);
    let keys = choose|keys: Seq<K::Model>|
        #![trigger delta(out, keys, out2)]
        keys.no_duplicates() && told == delta(out, keys, out2) && put_all(out, keys, out2) == out2;
    delta_tells(out, keys, out2);
    assert(out =~= piped(rows, region_row::<S, K, Input>(stages, before)));
    assert(out2 =~= piped(rows, region_row::<S, K, Input>(stages, after)));
}

proof fn part_outputs<K, V, O>(
    rows: Map<K, V>,
    f: spec_fn(K, V) -> Option<O>,
    g: spec_fn(K, V) -> Option<O>,
    route: spec_fn(K) -> int,
    s: int,
)
    ensures
        forall|k: K| #[trigger]
            lookup(piped(key_part(rows, route, s), f), k) == if route(k) == s {
                lookup(piped(rows, f), k)
            } else {
                None
            },
        forall|k: K| #[trigger]
            lookup(piped(key_part(rows, route, s), g), k) == if route(k) == s {
                lookup(piped(rows, g), k)
            } else {
                None
            },
{
    assert forall|k: K| #[trigger] lookup(piped(key_part(rows, route, s), f), k) == if route(k) == s {
        lookup(piped(rows, f), k)
    } else {
        None
    } by {
        piped_part(rows, f, route, s, k);
    }
    assert forall|k: K| #[trigger] lookup(piped(key_part(rows, route, s), g), k) == if route(k) == s {
        lookup(piped(rows, g), k)
    } else {
        None
    } by {
        piped_part(rows, g, route, s, k);
    }
}

/// The rows that come out of shards, each from the shard that is responsible for its key.
pub open spec fn shard_outputs<S: RuntimeStages<K, Input>, K: MapKey, Input: CellValue>(
    stages: S,
    shards: Seq<S::Shard>,
    route: spec_fn(K::Model) -> int,
) -> Map<K::Model, <S::Output as CellValue>::Model> {
    Map::new(
        |k: K::Model|
            0 <= route(k) < shards.len() && stages.output(shards[route(k)]).contains_key(k),
        |k: K::Model| stages.output(shards[route(k)])[k],
    )
}

/// In every shard a stage, counted from the first, keeps what it makes of what it gets with these
/// right rows.
pub open spec fn shards_level<S: RuntimeStages<K, Input>, K: MapKey, Input: CellValue>(
    stages: S,
    place: nat,
    rights: S::Rights,
    shards: Seq<S::Shard>,
) -> bool {
    forall|s: int| 0 <= s < shards.len() ==> stages.level(place, rights, #[trigger] shards[s])
}

/// What is told along a chain of outputs: for each next one, the rows that change, in the order in
/// which they came.
pub open spec fn phases<K, V>(outputs: Seq<Map<K, V>>, live: Seq<K>) -> Seq<Change<K, V>>
    decreases outputs.len(),
{
    if outputs.len() <= 1 {
        Seq::empty()
    } else {
        phases(outputs.drop_last(), live) + delta(
            outputs[outputs.len() - 2],
            live,
            outputs.last(),
        )
    }
}

proof fn tells_upto_ext<K, V>(
    before: Map<K, V>,
    a: Map<K, V>,
    b: Map<K, V>,
    steps: Seq<Change<K, V>>,
    route: spec_fn(K) -> int,
    n: int,
)
    requires
        tells_upto(before, a, steps, route, n),
        forall|k: K| 0 <= #[trigger] route(k) < n ==> lookup(a, k) == lookup(b, k),
    ensures
        tells_upto(before, b, steps, route, n),
{
    assert forall|k: K|
        #![trigger route(k)]
        if 0 <= route(k) < n {
            crate::join_runtime::sharded_laws::tells_at(steps, k, lookup(before, k), lookup(b, k))
        } else {
            forall|i: int| 0 <= i < steps.len() ==> change_key(#[trigger] steps[i]) != Some(k)
        } by {}
}

/// What a shard tells takes its output to its new output.
proof fn told_from_output<S: RuntimeStages<K, Input>, K: MapKey, Input: CellValue>(
    stages: S,
    old_shard: S::Shard,
    new_shard: S::Shard,
    told: Seq<Change<K::Model, <S::Output as CellValue>::Model>>,
)
    requires
        exists|keys: Seq<K::Model>|
            #![trigger delta(stages.output(old_shard), keys, stages.output(new_shard))]
            keys.no_duplicates() && told == delta(
                stages.output(old_shard),
                keys,
                stages.output(new_shard),
            ) && put_all(stages.output(old_shard), keys, stages.output(new_shard)) == stages.output(
                new_shard,
            ),
    ensures
        tells(stages.output(old_shard), stages.output(new_shard), told),
{
    let out = stages.output(old_shard);
    let out2 = stages.output(new_shard);
    let keys = choose|keys: Seq<K::Model>|
        #![trigger delta(out, keys, out2)]
        keys.no_duplicates() && told == delta(out, keys, out2) && put_all(out, keys, out2) == out2;
    delta_tells(out, keys, out2);
}

impl<S: RegionStages<K, Input>, K: MapKey, Input: CellValue> RegionRouter<S, K, Input> {
    /// The rows that the region has told of.
    pub closed spec fn kept(&self) -> Map<K::Model, <S::Output as CellValue>::Model> {
        match self.storage {
            RuntimeStorage::Serial(shard) => self.stages.output(shard),
            RuntimeStorage::Sharded { runtime, .. } => shard_outputs::<S, K, Input>(
                self.stages,
                runtime@,
                key_route::<K>(self.hasher@, runtime@.len() as usize),
            ),
        }
    }

    /// The right rows as they were since the region last held what its stages make of its rows, up
    /// to the right rows as they are.
    pub closed spec fn past(&self) -> Seq<S::Rights> {
        self.past@
    }

    /// Each stage keeps what it makes of what it gets with the right rows at some point of the past.
    pub closed spec fn settling(&self) -> bool {
        &&& self.stages.lawful()
        &&& self.past@.len() > 0
        &&& self.past@.last() == self.rights
        &&& forall|i: int| 0 <= i < self.past@.len() ==> self.stages.rights_wf(#[trigger] self.past@[i])
        &&& self.arrivals.wf()
        &&& live_of(self.arrivals.live(), self.rows@)
        &&& match self.storage {
            RuntimeStorage::Serial(shard) => self.stages.settles(self.past@, shard)
                && self.stages.rows(shard) == self.rows@,
            RuntimeStorage::Sharded { runtime, .. } => {
                &&& 1 <= runtime@.len() <= usize::MAX
                &&& forall|s: int|
                    0 <= s < runtime@.len() ==> self.stages.settles(
                        self.past@,
                        #[trigger] runtime@[s],
                    ) && self.stages.rows(runtime@[s]) == key_part(
                        self.rows@,
                        key_route::<K>(self.hasher@, runtime@.len() as usize),
                        s,
                    )
            },
        }
    }

    /// A stage, counted from the first, keeps what it makes of what it gets with the right rows as
    /// they are, or its right rows have not changed.
    pub closed spec fn level(&self, place: nat) -> bool {
        self.stages.steady(place, self.past@) || match self.storage {
            RuntimeStorage::Serial(shard) => self.stages.level(place, self.rights, shard),
            RuntimeStorage::Sharded { runtime, .. } => shards_level::<S, K, Input>(
                self.stages,
                place,
                self.rights,
                runtime@,
            ),
        }
    }

    /// In a region that holds what its stages make of its rows, every stage is level.
    pub proof fn wf_settling(&self)
        requires
            self.wf(),
        ensures
            self.settling(),
            self.past() == seq![self.rights()],
            forall|place: nat| #[trigger] self.level(place),
            self.kept() == self.output(),
    {
        self.kept_output();
        match self.storage {
            RuntimeStorage::Serial(shard) => {
                self.stages.sound_settles(self.rights, shard);
            },
            RuntimeStorage::Sharded { runtime, .. } => {
                assert forall|s: int| 0 <= s < runtime@.len() implies self.stages.settles(
                    self.past@,
                    #[trigger] runtime@[s],
                ) && forall|place: nat| #[trigger]
                    self.stages.level(place, self.rights, runtime@[s]) by {
                    self.stages.sound_settles(self.rights, runtime@[s]);
                }
            },
        }
    }

    /// The region holds what its stages make of its rows, once every stage is level.
    proof fn settled_shards(&self)
        requires
            self.settling(),
            forall|place: nat| #[trigger] self.level(place),
        ensures
            match self.storage {
                RuntimeStorage::Serial(shard) => self.stages.sound(self.rights, shard),
                RuntimeStorage::Sharded { runtime, .. } => shards_sound::<S, K, Input>(
                    self.stages,
                    self.rights,
                    runtime@,
                    self.hasher@,
                    self.rows@,
                ),
            },
            self.stages.rights_wf(self.rights),
    {
        assert(self.stages.rights_wf(self.past@[self.past@.len() - 1]));
        match self.storage {
            RuntimeStorage::Serial(shard) => {
                assert forall|place: nat| #[trigger]
                    self.stages.level(place, self.past@.last(), shard) || self.stages.steady(
                        place,
                        self.past@,
                    ) by {
                    assert(self.level(place));
                }
                self.stages.settled(self.past@, shard);
            },
            RuntimeStorage::Sharded { runtime, .. } => {
                assert forall|s: int| 0 <= s < runtime@.len() implies self.stages.sound(
                    self.rights,
                    #[trigger] runtime@[s],
                ) by {
                    assert forall|place: nat| #[trigger]
                        self.stages.level(place, self.past@.last(), runtime@[s])
                            || self.stages.steady(place, self.past@) by {
                        assert(self.level(place));
                    }
                    self.stages.settled(self.past@, runtime@[s]);
                }
            },
        }
    }

    /// What a region has told of is what its stages make of its rows.
    proof fn kept_output(&self)
        requires
            self.wf(),
        ensures
            self.kept() == self.output(),
    {
        let rows = self.rows@;
        let f = self.row();
        match self.storage {
            RuntimeStorage::Serial(shard) => {
                self.stages.sound_output(self.rights, shard);
                assert(self.kept() =~= piped(rows, f));
            },
            RuntimeStorage::Sharded { runtime, .. } => {
                let count = runtime@.len() as usize;
                let begin = self.hasher@;
                let route = key_route::<K>(begin, count);
                shard_bounds::<K>(begin, count);
                assert forall|k: K::Model| #[trigger] lookup(self.kept(), k) == lookup(
                    piped(rows, f),
                    k,
                ) by {
                    let s = route(k);
                    let part = key_part(rows, route, s);
                    assert(self.stages.sound(self.rights, runtime@[s]));
                    self.stages.sound_output(self.rights, runtime@[s]);
                    assert(self.stages.output(runtime@[s]) =~= piped(part, f));
                    piped_part(rows, f, route, s, k);
                }
                crate::delta::lookup_ext(self.kept(), piped(rows, f));
            },
        }
    }

    /// The other stages do not see that the right rows of one follow changes.
    proof fn level_elsewhere<Location, RK: MapKey, RV: CellValue>(
        &self,
        before: Self,
        steps: Seq<Change<RK::Model, RV::Model>>,
        place: nat,
    ) where S: RightRoot<Location, K, Input, RK, RV>
        requires
            before.settling(),
            self.stages == before.stages,
            self.storage == before.storage,
            self.stages.right_run(before.rights, steps, self.rights),
            self.past@ == before.past@.push(self.rights),
            place != RightRoot::<Location, K, Input, RK, RV>::place(&self.stages),
            before.level(place),
        ensures
            self.level(place),
    {
        match self.storage {
            RuntimeStorage::Serial(shard) => {
                RightRoot::<Location, K, Input, RK, RV>::right_run_elsewhere(
                    &self.stages,
                    before.past@,
                    steps,
                    self.rights,
                    shard,
                    place,
                );
            },
            RuntimeStorage::Sharded { runtime, .. } => {
                let _ = runtime@[0];
                assert forall|s: int| 0 <= s < runtime@.len() implies (self.stages.steady(
                    place,
                    before.past@,
                ) ==> self.stages.steady(place, self.past@)) && (self.stages.level(
                    place,
                    before.rights,
                    runtime@[s],
                ) ==> self.stages.level(place, self.rights, #[trigger] runtime@[s])) by {
                    RightRoot::<Location, K, Input, RK, RV>::right_run_elsewhere(
                        &self.stages,
                        before.past@,
                        steps,
                        self.rights,
                        runtime@[s],
                        place,
                    );
                }
                assert(0 <= 0 < runtime@.len());
                RightRoot::<Location, K, Input, RK, RV>::right_run_elsewhere(
                    &self.stages,
                    before.past@,
                    steps,
                    self.rights,
                    runtime@[0],
                    place,
                );
            },
        }
    }

    proof fn still_settling(&self, before: Self)
        requires
            self.hasher == before.hasher,
            before.settling(),
            self.stages == before.stages,
            self.storage == before.storage,
            self.arrivals == before.arrivals,
            self.rows@ == before.rows@,
            self.stages.rights_wf(self.rights),
            self.past@ == before.past@.push(self.rights),
        ensures
            self.settling(),
            self.kept() == before.kept(),
    {
        assert forall|i: int| 0 <= i < self.past@.len() implies self.stages.rights_wf(
            #[trigger] self.past@[i],
        ) by {
            if i < before.past@.len() {
                assert(self.past@[i] == before.past@[i]);
            }
        }
        match self.storage {
            RuntimeStorage::Serial(shard) => {
                self.stages.settles_longer(before.past@, self.rights, shard);
            },
            RuntimeStorage::Sharded { runtime, .. } => {
                assert forall|s: int| 0 <= s < runtime@.len() implies self.stages.settles(
                    self.past@,
                    #[trigger] runtime@[s],
                ) by {
                    self.stages.settles_longer(before.past@, self.rights, runtime@[s]);
                }
            },
        }
    }

    /// Lets the right rows of a stage follow a diff, for a stage that does not maintain them. It
    /// learns of the diff later.
    pub fn follow_right<Location, RK: MapKey, RV: CellValue>(&mut self, diff: &MapDiff<RK, RV>) where
        S: RightRoot<Location, K, Input, RK, RV>,

        requires
            old(self).settling(),
        ensures
            final(self).settling(),
            final(self).past() == old(self).past().push(final(self).rights()),
            final(self).stages().right_run(old(self).rights(), diff.steps(), final(self).rights()),
            forall|place: nat|
                place != RightRoot::<Location, K, Input, RK, RV>::place(&old(self).stages())
                    && old(self).level(place) ==> #[trigger] final(self).level(place),
            final(self).kept() == old(self).kept(),
            final(self).sharded() == old(self).sharded(),
            final(self).stages() == old(self).stages(),
            final(self).rows() == old(self).rows(),
            final(self).live() == old(self).live(),
            final(self).shard_count() == old(self).shard_count(),
            final(self).promotion_work() == old(self).promotion_work(),
            final(self).begin() == old(self).begin(),
            final(self).numbered() == old(self).numbered(),
    {
        let ghost start = *self;
        let ghost steps = diff.steps();
        proof {
            assert(self.stages.rights_wf(self.past@[self.past@.len() - 1]));
        }
        let stages = &self.stages;
        let rights = &mut self.rights;
        stages.follow_right_root(rights, diff);
        let ghost past = self.past@.push(self.rights);
        self.past = Ghost(past);
        proof {
            self.still_settling(start);
            assert forall|place: nat|
                place != RightRoot::<Location, K, Input, RK, RV>::place(&start.stages)
                    && start.level(place) implies #[trigger] self.level(place) by {
                self.level_elsewhere::<Location, RK, RV>(start, steps, place);
            }
        }
    }

    /// The stage has learned of changes.
    closed spec fn has_learned<Location, RK: MapKey, RV: CellValue>(
        &self,
        changes: Seq<Change<RK::Model, RV::Model>>,
    ) -> bool where S: RightRoot<Location, K, Input, RK, RV> {
        match self.storage {
            RuntimeStorage::Serial(shard) => self.stages.learned(self.rights, shard, changes),
            RuntimeStorage::Sharded { runtime, .. } => forall|s: int|
                0 <= s < runtime@.len() ==> self.stages.learned(
                    self.rights,
                    #[trigger] runtime@[s],
                    changes,
                ),
        }
    }

    proof fn learned_first<Location, RK: MapKey, RV: CellValue>(&self) where
        S: RightRoot<Location, K, Input, RK, RV>,

        ensures
            self.has_learned::<Location, RK, RV>(Seq::empty()),
    {
        match self.storage {
            RuntimeStorage::Serial(shard) => {
                RightRoot::<Location, K, Input, RK, RV>::learned_none(
                    &self.stages,
                    self.rights,
                    shard,
                );
            },
            RuntimeStorage::Sharded { runtime, .. } => {
                assert forall|s: int| 0 <= s < runtime@.len() implies self.stages.learned(
                    self.rights,
                    #[trigger] runtime@[s],
                    Seq::empty(),
                ) by {
                    RightRoot::<Location, K, Input, RK, RV>::learned_none(
                        &self.stages,
                        self.rights,
                        runtime@[s],
                    );
                }
            },
        }
    }

    proof fn learned_last<Location, RK: MapKey, RV: CellValue>(
        &self,
        steps: Seq<Change<RK::Model, RV::Model>>,
    ) where S: RightRoot<Location, K, Input, RK, RV>
        requires
            self.settling(),
            self.has_learned::<Location, RK, RV>(steps),
            self.stages.follows(self.past@, steps),
            self.stages.names_all(self.past@[0], steps),
        ensures
            self.level(RightRoot::<Location, K, Input, RK, RV>::place(&self.stages)),
    {
        assert(self.stages.rights_wf(self.past@[0]));
        match self.storage {
            RuntimeStorage::Serial(shard) => {
                self.stages.learned_all(self.past@, steps, shard);
            },
            RuntimeStorage::Sharded { runtime, .. } => {
                assert forall|s: int| 0 <= s < runtime@.len() implies self.stages.level(
                    RightRoot::<Location, K, Input, RK, RV>::place(&self.stages),
                    self.rights,
                    #[trigger] runtime@[s],
                ) by {
                    self.stages.learned_all(self.past@, steps, runtime@[s]);
                }
            },
        }
    }

    /// Learns of one change that the right rows of a stage have followed, and tells how the output
    /// changes, in the order in which the rows came.
    fn observe_right_leaf<Location, RK: MapKey, RV: CellValue>(
        &mut self,
        leaf: &MapDiff<RK, RV>,
        Ghost(changes): Ghost<Seq<Change<RK::Model, RV::Model>>>,
    ) -> (told: Vec<MapDiff<K, S::Output>>) where S: RightRoot<Location, K, Input, RK, RV>
        requires
            old(self).settling(),
            old(self).has_learned::<Location, RK, RV>(changes),
            !(leaf is Batch),
        ensures
            final(self).settling(),
            final(self).has_learned::<Location, RK, RV>(changes.push(leaf.atom())),
            forall|place: nat| old(self).level(place) ==> #[trigger] final(self).level(place),
            final(self).past() == old(self).past(),
            final(self).sharded() == old(self).sharded(),
            final(self).stages() == old(self).stages(),
            final(self).rights() == old(self).rights(),
            final(self).rows() == old(self).rows(),
            final(self).live() == old(self).live(),
            final(self).shard_count() == old(self).shard_count(),
            final(self).promotion_work() == old(self).promotion_work(),
            final(self).begin() == old(self).begin(),
            final(self).numbered() == old(self).numbered(),
            flat(told@),
            steps_of(told@) == delta(old(self).kept(), old(self).live(), final(self).kept()),
            put_all(old(self).kept(), old(self).live(), final(self).kept()) == final(self).kept(),
    {
        let ghost rows = self.rows@;
        let ghost live = self.arrivals.live();
        let ghost b = self.kept();
        let ghost past = self.past@;
        let ghost next = changes.push(leaf.atom());
        let mut phase: Vec<MapDiff<K, S::Output>> = Vec::new();
        proof {
            assert(self.stages.rights_wf(past[past.len() - 1]));
            assert(leaf.steps() =~= seq![leaf.atom()]);
            assert(changes + leaf.steps() =~= next);
        }
        let stages = &self.stages;
        let rights = &self.rights;
        let hasher = &self.hasher;
        match &mut self.storage {
            RuntimeStorage::Serial(shard) => {
                let ghost start = *shard;
                proof {
                    stages.settles_within(past, start);
                }
                phase = stages.observe_right_root(rights, shard, leaf, Ghost(past), Ghost(changes));
                proof {
                    stages.settles_within(past, *shard);
                    told_from_output::<S, K, Input>(*stages, start, *shard, steps_of(phase@));
                }
            },
            RuntimeStorage::Sharded { runtime, .. } => {
                let count: usize = runtime.len();
                let ghost begin = hasher@;
                let ghost route = key_route::<K>(begin, count);
                let ghost all = runtime@;
                let mut s: usize = 0;
                proof {
                    shard_bounds::<K>(begin, count);
                    assert(tells_upto(b, b, Seq::empty(), route, 0));
                    assert(steps_of(phase@) =~= Seq::empty());
                }
                while s < count
                    invariant
                        0 <= s <= count,
                        count == all.len(),
                        count == runtime@.len(),
                        route == key_route::<K>(begin, count),
                        forall|k: K::Model| 0 <= #[trigger] route(k) < count,
                        stages.lawful(),
                        stages.rights_wf(*rights),
                        past.len() > 0,
                        past.last() == *rights,
                        !(leaf is Batch),
                        next == changes + leaf.steps(),
                        b == shard_outputs::<S, K, Input>(*stages, all, route),
                        forall|x: int|
                            0 <= x < count ==> stages.settles(past, #[trigger] all[x])
                                && stages.learned(*rights, all[x], changes) && stages.rows(all[x])
                                == key_part(rows, route, x),
                        forall|x: int|
                            0 <= x < s ==> stages.settles(past, #[trigger] runtime@[x])
                                && stages.learned(*rights, runtime@[x], next) && stages.rows(
                                runtime@[x],
                            ) == key_part(rows, route, x),
                        forall|x: int, place: nat|
                            0 <= x < s && stages.level(place, *rights, all[x])
                                ==> #[trigger] stages.level(place, *rights, runtime@[x]),
                        forall|x: int| s <= x < count ==> #[trigger] runtime@[x] == all[x],
                        flat(phase@),
                        tells_upto(
                            b,
                            shard_outputs::<S, K, Input>(*stages, runtime@, route),
                            steps_of(phase@),
                            route,
                            s as int,
                        ),
                    decreases count - s,
                {
                    let ghost current = runtime@;
                    let ghost sofar = phase@;
                    let ghost a = shard_outputs::<S, K, Input>(*stages, current, route);
                    proof {
                        let _ = all[s as int];
                        let _ = current[s as int];
                        stages.settles_within(past, all[s as int]);
                    }
                    let mut more = stages.observe_right_root(
                        rights,
                        &mut runtime[s],
                        leaf,
                        Ghost(past),
                        Ghost(changes),
                    );
                    proof {
                        let si = s as int;
                        let state = runtime@[si];
                        let a2 = shard_outputs::<S, K, Input>(*stages, runtime@, route);
                        stages.settles_within(past, state);
                        told_from_output::<S, K, Input>(*stages, all[si], state, steps_of(more@));
                        assert forall|k: K::Model| 0 <= #[trigger] route(k) < s implies lookup(a, k)
                            == lookup(a2, k) by {
                            assert(runtime@[route(k)] == current[route(k)]);
                        }
                        tells_upto_ext(b, a, a2, steps_of(sofar), route, si);
                        assert forall|k: K::Model| #[trigger]
                            lookup(stages.output(all[si]), k) == if route(k) == si {
                                lookup(b, k)
                            } else {
                                None
                            } by {
                            if stages.output(all[si]).contains_key(k) {
                                assert(stages.rows(all[si]).contains_key(k));
                            }
                        }
                        assert forall|k: K::Model| #[trigger]
                            lookup(stages.output(state), k) == if route(k) == si {
                                lookup(a2, k)
                            } else {
                                None
                            } by {
                            if stages.output(state).contains_key(k) {
                                assert(stages.rows(state).contains_key(k));
                            }
                        }
                        tells_upto_next(
                            b,
                            a2,
                            steps_of(sofar),
                            route,
                            si,
                            stages.output(all[si]),
                            stages.output(state),
                            steps_of(more@),
                        );
                        steps_of_concat(sofar, more@);
                        flat_concat(sofar, more@);
                        assert forall|x: int| 0 <= x < s + 1 implies stages.settles(
                            past,
                            #[trigger] runtime@[x],
                        ) && stages.learned(*rights, runtime@[x], next) && stages.rows(runtime@[x])
                            == key_part(rows, route, x) by {
                            if x < s {
                                assert(runtime@[x] == current[x]);
                            }
                        }
                        assert forall|x: int, place: nat|
                            0 <= x < s + 1 && stages.level(place, *rights, all[x]) implies
                            #[trigger] stages.level(place, *rights, runtime@[x]) by {
                            if x < s {
                                assert(runtime@[x] == current[x]);
                                assert(stages.level(place, *rights, current[x]));
                            }
                        }
                        assert forall|x: int| s + 1 <= x < count implies #[trigger] runtime@[x]
                            == all[x] by {
                            assert(runtime@[x] == current[x]);
                        }
                    }
                    phase.append(&mut more);
                    s += 1;
                }
                proof {
                    let a = shard_outputs::<S, K, Input>(*stages, runtime@, route);
                    tells_upto_all(b, a, steps_of(phase@), route, count as int);
                    assert forall|k: K::Model| !live.contains(k) implies lookup(b, k) == None::<
                        <S::Output as CellValue>::Model,
                    > && lookup(a, k) == None::<<S::Output as CellValue>::Model> by {
                        let x = route(k);
                        let _ = all[x];
                        let _ = runtime@[x];
                        stages.settles_within(past, all[x]);
                        stages.settles_within(past, runtime@[x]);
                        assert(!rows.contains_key(k));
                        assert(!stages.rows(all[x]).contains_key(k));
                        assert(!stages.rows(runtime@[x]).contains_key(k));
                    }
                    assert forall|place: nat|
                        shards_level::<S, K, Input>(*stages, place, *rights, all) implies
                        #[trigger] shards_level::<S, K, Input>(*stages, place, *rights, runtime@) by {
                        assert forall|x: int| 0 <= x < runtime@.len() implies stages.level(
                            place,
                            *rights,
                            #[trigger] runtime@[x],
                        ) by {
                            assert(stages.level(place, *rights, all[x]));
                        }
                    }
                }
            },
        }
        let ordered = order_changes(self.arrivals.number_map(), phase);
        proof {
            let a = self.kept();
            sequenced_grows(self.arrivals.numbers(), self.arrivals.next(), live);
            assert(tells(b, a, steps_of(phase@)));
            assert forall|k: K::Model| !live.contains(k) implies #[trigger] lookup(b, k) == lookup(a, k) by {
                assert(!rows.contains_key(k));
            }
            ordered_tells(
                self.arrivals.numbers(),
                b,
                a,
                steps_of(phase@),
                steps_of(ordered@),
                live,
            );
            put_all_covers(b, live, a);
        }
        ordered
    }

    /// Learns of a diff that the right rows of a stage have followed, and tells how the output
    /// changes: change by change, in the order in which the rows came. Where the past is that of
    /// this diff, the stage is then level; and where all stages are, the region holds what they make
    /// of its rows.
    pub fn observe_right<Location, RK: MapKey, RV: CellValue>(&mut self, diff: &MapDiff<RK, RV>) -> (output:
        Vec<MapDiff<K, S::Output>>) where S: RightRoot<Location, K, Input, RK, RV>
        requires
            old(self).settling(),
        ensures
            final(self).settling(),
            forall|place: nat| old(self).level(place) ==> #[trigger] final(self).level(place),
            old(self).stages().follows(old(self).past(), diff.steps()) && old(self).stages().names_all(
                old(self).past()[0],
                diff.steps(),
            ) ==> final(self).level(
                RightRoot::<Location, K, Input, RK, RV>::place(&old(self).stages()),
            ),
            (forall|place: nat| #[trigger] final(self).level(place)) ==> final(self).wf()
                && final(self).kept() == final(self).output(),
            !(forall|place: nat| #[trigger] final(self).level(place)) ==> final(self).past() == old(
                self,
            ).past(),
            final(self).sharded() == old(self).sharded(),
            final(self).stages() == old(self).stages(),
            final(self).rights() == old(self).rights(),
            final(self).rows() == old(self).rows(),
            final(self).live() == old(self).live(),
            final(self).shard_count() == old(self).shard_count(),
            final(self).promotion_work() == old(self).promotion_work(),
            final(self).begin() == old(self).begin(),
            final(self).numbered() == old(self).numbered(),
            told_as(diff, output@),
            exists|outputs: Seq<Map<K::Model, <S::Output as CellValue>::Model>>|
                #![trigger phases(outputs, old(self).live())]
                outputs.len() == diff.steps().len() + 1 && outputs[0] == old(self).kept()
                    && outputs.last() == final(self).kept() && steps_of(output@) == phases(
                    outputs,
                    old(self).live(),
                ),
            fits_all(old(self).kept(), steps_of(output@)),
            replay(old(self).kept(), steps_of(output@)) == final(self).kept(),
    {
        let ghost steps = diff.steps();
        let ghost start = self.kept();
        let ghost live = self.live();
        let ghost place = RightRoot::<Location, K, Input, RK, RV>::place(&self.stages);
        let leaves = diff.leaves();
        let mut output: Vec<MapDiff<K, S::Output>> = Vec::new();
        let ghost mut outputs: Seq<Map<K::Model, <S::Output as CellValue>::Model>> = seq![start];
        let mut i: usize = 0;
        proof {
            assert(steps.take(0) =~= Seq::empty());
            assert(steps_of(output@) =~= Seq::empty());
            self.learned_first::<Location, RK, RV>();
        }
        while i < leaves.len()
            invariant
                i <= leaves@.len(),
                all_leaves(leaves@),
                atoms(leaves@) == steps,
                self.settling(),
                self.has_learned::<Location, RK, RV>(steps.take(i as int)),
                forall|place: nat| old(self).level(place) ==> #[trigger] self.level(place),
                self.past() == old(self).past(),
                self.sharded() == old(self).sharded(),
                self.stages() == old(self).stages(),
                self.rights() == old(self).rights(),
                self.rows() == old(self).rows(),
                self.live() == live,
                self.shard_count() == old(self).shard_count(),
                self.promotion_work() == old(self).promotion_work(),
                self.begin() == old(self).begin(),
                self.numbered() == old(self).numbered(),
                outputs.len() == i + 1,
                outputs[0] == start,
                outputs.last() == self.kept(),
                flat(output@),
                steps_of(output@) == phases(outputs, live),
                fits_all(start, steps_of(output@)),
                replay(start, steps_of(output@)) == self.kept(),
            decreases leaves@.len() - i,
        {
            let ghost sofar = output@;
            let ghost out = self.kept();
            let ghost part = steps.take(i as int);
            let mut more = self.observe_right_leaf::<Location, RK, RV>(leaves[i], Ghost(part));
            proof {
                assert(steps[i as int] == leaves@[i as int].atom());
                assert(part.push(steps[i as int]) =~= steps.take(i + 1));
                let longer = outputs.push(self.kept());
                assert(longer.drop_last() =~= outputs);
                assert(longer[longer.len() - 2] == out);
                delta_replays(out, live, self.kept());
                replay_concat(start, steps_of(sofar), steps_of(more@));
                steps_of_concat(sofar, more@);
                flat_concat(sofar, more@);
                outputs = longer;
            }
            output.append(&mut more);
            i += 1;
        }
        let ghost done = *self;
        let ghost whole = forall|place: nat| #[trigger] done.level(place);
        proof {
            assert(steps.take(i as int) =~= steps);
            if self.stages.follows(self.past@, steps) && self.stages.names_all(self.past@[0], steps) {
                self.learned_last::<Location, RK, RV>(steps);
            }
            if whole {
                self.settled_shards();
            }
        }
        let ghost past = if whole {
            seq![self.rights]
        } else {
            self.past@
        };
        self.past = Ghost(past);
        proof {
            if whole {
                self.wf_settling();
                assert(self.kept() == done.kept());
            } else {
                assert(*self == done);
            }
            assert(steps_of(output@) == phases(outputs, live));
        }
        match diff {
            MapDiff::Batch { .. } => one_batch(output),
            _ => output,
        }
    }
}

proof fn observing_first<
    Location,
    S: RightRoot<Location, K, Input, RK, RV>,
    K: MapKey,
    Input: CellValue,
    RK: MapKey,
    RV: CellValue,
>(
    stages: S,
    before: S::Rights,
    steps: Seq<Change<RK::Model, RV::Model>>,
    rights: S::Rights,
    shard: S::Shard,
)
    requires
        stages.sound(before, shard),
        stages.right_run(before, steps, rights),
    ensures
        stages.settles(seq![before, rights], shard),
        stages.learned(rights, shard, Seq::empty()),
        forall|place: nat|
            place != RightRoot::<Location, K, Input, RK, RV>::place(&stages)
                ==> #[trigger] stages.level(place, rights, shard),
{
    stages.sound_settles(before, shard);
    stages.settles_longer(seq![before], rights, shard);
    assert(seq![before].push(rights) =~= seq![before, rights]);
    RightRoot::<Location, K, Input, RK, RV>::learned_none(&stages, rights, shard);
    assert forall|place: nat|
        place != RightRoot::<Location, K, Input, RK, RV>::place(&stages) implies
        #[trigger] stages.level(place, rights, shard) by {
        assert(stages.level(place, before, shard));
        RightRoot::<Location, K, Input, RK, RV>::right_run_elsewhere(
            &stages,
            seq![before],
            steps,
            rights,
            shard,
            place,
        );
    }
}

proof fn observing_last<
    Location,
    S: RightRoot<Location, K, Input, RK, RV>,
    K: MapKey,
    Input: CellValue,
    RK: MapKey,
    RV: CellValue,
>(
    stages: S,
    before: S::Rights,
    steps: Seq<Change<RK::Model, RV::Model>>,
    rights: S::Rights,
    shard: S::Shard,
)
    requires
        stages.rights_wf(before),
        stages.right_run(before, steps, rights),
        stages.names_all(before, steps),
        stages.settles(seq![before, rights], shard),
        stages.learned(rights, shard, steps),
        forall|place: nat|
            place != RightRoot::<Location, K, Input, RK, RV>::place(&stages)
                ==> #[trigger] stages.level(place, rights, shard),
    ensures
        stages.sound(rights, shard),
{
    let chain = seq![before, rights];
    RightRoot::<Location, K, Input, RK, RV>::follows_run(&stages, before, steps, rights);
    stages.learned_all(chain, steps, shard);
    stages.settled(chain, shard);
}

/// A shard whose stage lets the right rows follow changes as one event, and one whose stage learns of
/// them once the right rows have followed them all, tell the same changes, up to their order: one for
/// each row whose output differs. New beginnings may be among the changes.
pub proof fn maintainers_and_observers_tell_the_same<
    Location,
    S: RightRoot<Location, K, Input, RK, RV>,
    K: MapKey,
    Input: CellValue,
    RK: MapKey,
    RV: CellValue,
>(
    stages: S,
    steps: Seq<Change<RK::Model, RV::Model>>,
    before: S::Rights,
    maintained: S::Rights,
    maintainer: S::Shard,
    next_maintainer: S::Shard,
    told: Seq<Change<K::Model, <S::Output as CellValue>::Model>>,
    keys: Seq<K::Model>,
    shared: S::Rights,
    observer: S::Shard,
    next_observer: S::Shard,
    observed: Seq<Change<K::Model, <S::Output as CellValue>::Model>>,
    observed_keys: Seq<K::Model>,
)
    requires
        stages.rights_wf(before),
        stages.names_all(before, steps),
        stages.sound(before, maintainer),
        stages.sound(before, observer),
        stages.rows(maintainer) == stages.rows(observer),
        stages.right_run(before, steps, maintained),
        stages.sound(maintained, next_maintainer),
        stages.rows(next_maintainer) == stages.rows(maintainer),
        keys.no_duplicates(),
        told == delta(stages.output(maintainer), keys, stages.output(next_maintainer)),
        put_all(stages.output(maintainer), keys, stages.output(next_maintainer)) == stages.output(
            next_maintainer,
        ),
        stages.right_run(before, steps, shared),
        stages.settles(seq![before, shared], next_observer),
        stages.learned(shared, next_observer, steps),
        forall|place: nat|
            stages.level(place, shared, observer) ==> #[trigger] stages.level(
                place,
                shared,
                next_observer,
            ),
        stages.rows(next_observer) == stages.rows(observer),
        observed_keys.no_duplicates(),
        observed == delta(stages.output(observer), observed_keys, stages.output(next_observer)),
        put_all(stages.output(observer), observed_keys, stages.output(next_observer))
            == stages.output(next_observer),
    ensures
        stages.output(next_maintainer) == stages.output(next_observer),
        tells(stages.output(maintainer), stages.output(next_maintainer), told),
        tells(stages.output(maintainer), stages.output(next_maintainer), observed),
        told.to_multiset() == observed.to_multiset(),
{
    observing_first::<Location, S, K, Input, RK, RV>(stages, before, steps, shared, observer);
    observing_last::<Location, S, K, Input, RK, RV>(stages, before, steps, shared, next_observer);
    stages.same_itself(before);
    stages.right_run_same(before, before, steps, maintained, shared);
    same_region_row::<S, K, Input>(stages, maintained, shared);
    stages.sound_output(before, maintainer);
    stages.sound_output(before, observer);
    stages.sound_output(maintained, next_maintainer);
    stages.sound_output(shared, next_observer);
    let rows = stages.rows(maintainer);
    let f = region_row::<S, K, Input>(stages, maintained);
    let g = region_row::<S, K, Input>(stages, shared);
    assert(stages.output(next_maintainer) =~= piped(rows, f));
    assert(stages.output(next_observer) =~= piped(rows, g));
    delta_tells(stages.output(maintainer), keys, stages.output(next_maintainer));
    delta_tells(stages.output(observer), observed_keys, stages.output(next_observer));
    tells_same(stages.output(maintainer), stages.output(next_maintainer), told, observed);
}

} // verus!
