//! A join that divides its rows among shards by join key.
use vstd::prelude::*;

use crate::diff::{
    all_leaves, atoms, change_key, flat, steps_of, steps_of_flat, steps_of_push, Change, MapDiff,
};
use crate::foreign_key::RightJoinKey;
use crate::func::{call2, image2, pure2, RowFn};
use crate::fx::{fx_code, lookup, FxMap, FxState, FxSum};
use crate::join_region::declaration::StageProject;
use crate::merge::{sort_ranked, sorted_by, Rank};
use crate::parallel::WorkerPool;
use crate::value::{models, CellValue, MapKey};

verus! {

/// The number of diffs from which the shards of a join are processed on the worker pool.
pub const PARALLEL_SHARD_WORK: usize = 8_192;

/// The number of shards for a number of threads: one for each of them, and one without threads.
pub fn shards_for_threads(threads: usize) -> (count: usize)
    ensures
        count == (if threads > 1 {
            threads
        } else {
            1
        }),
{
    if threads > 1 {
        threads
    } else {
        1
    }
}

/// The number of shards for a worker pool: one for each of its threads, and one without a pool.
pub open spec fn pool_shards(pool: Option<&WorkerPool>) -> usize {
    match pool {
        Some(pool) if pool.threads() > 1 => pool.threads(),
        _ => 1,
    }
}

/// The number of shards for a worker pool.
pub fn query_shard_count(pool: Option<&WorkerPool>) -> (count: usize)
    ensures
        count == pool_shards(pool),
{
    match pool {
        Some(pool) => shards_for_threads(pool.thread_count()),
        None => 1,
    }
}

/// The shard for a hash code among `count` shards.
pub open spec fn shard_of(code: int, count: usize) -> int {
    if count <= 1 {
        0
    } else {
        code % count as int
    }
}

/// The shard that is responsible for a join key.
pub open spec fn shard_route<JK: MapKey>(start: FxSum, count: usize) -> spec_fn(JK::Model) -> int {
    |j: JK::Model| shard_of(fx_code::<JK>(start, j), count)
}

/// The shard for a key: its hash code, divided by the number of shards.
pub fn shard_for<T: MapKey>(value: &T, start: &FxState, shard_count: usize) -> (shard: usize)
    ensures
        shard == shard_of(fx_code::<T>(start@, value.model()), shard_count),
        shard_count >= 1 ==> shard < shard_count,
{
    if shard_count <= 1 {
        0
    } else {
        (value.fx_hash(start) % (shard_count as u64)) as usize
    }
}

/// The phase in which a kind of change is merged.
pub open spec fn merge_phase<K, V>(change: Change<K, V>) -> u64 {
    match change {
        Change::Initial { .. } => 0,
        Change::Remove { .. } => 1,
        Change::Update { .. } => 2,
        Change::Insert { .. } => 3,
    }
}

/// The phase in which a kind of diff is merged: removals before updates, updates before insertions.
pub fn diff_merge_phase<K: CellValue, V: CellValue>(diff: &MapDiff<K, V>) -> (phase: u64)
    ensures
        diff is Batch ==> phase == 4,
        !(diff is Batch) ==> phase == merge_phase(diff.atom()),
{
    match diff {
        MapDiff::Initial { .. } => 0,
        MapDiff::Remove { .. } => 1,
        MapDiff::Update { .. } => 2,
        MapDiff::Insert { .. } => 3,
        MapDiff::Batch { .. } => 4,
    }
}

/// The changes that each of several shards gets.
pub open spec fn routed_steps<K: CellValue, V: CellValue>(routed: Seq<Vec<MapDiff<K, V>>>) -> Seq<
    Seq<Change<K::Model, V::Model>>,
> {
    routed.map_values(|diffs: Vec<MapDiff<K, V>>| steps_of(diffs@))
}

/// None of the diffs that shards get is a batch.
pub open spec fn all_flat<K, V>(routed: Seq<Vec<MapDiff<K, V>>>) -> bool {
    forall|s: int| 0 <= s < routed.len() ==> flat((#[trigger] routed[s])@)
}

/// The changes of the shards once one of them gets a further change.
pub open spec fn send<C>(routed: Seq<Seq<C>>, shard: int, change: C) -> Seq<Seq<C>> {
    routed.update(shard, routed[shard].push(change))
}

/// The changes of the shards once each of them starts anew without rows.
pub open spec fn send_reset<K, V>(routed: Seq<Seq<Change<K, V>>>) -> Seq<Seq<Change<K, V>>> {
    routed.map_values(
        |s: Seq<Change<K, V>>| s.push(Change::Initial { entries: Seq::<(K, V)>::empty() }),
    )
}

fn push_routed<K: CellValue, V: CellValue>(
    routed: &mut Vec<Vec<MapDiff<K, V>>>,
    route: usize,
    value: MapDiff<K, V>,
)
    requires
        route < old(routed)@.len(),
        all_flat(old(routed)@),
        !(value is Batch),
    ensures
        final(routed)@.len() == old(routed)@.len(),
        all_flat(final(routed)@),
        routed_steps(final(routed)@) == send(routed_steps(old(routed)@), route as int, value.atom()),
{
    let mut list: Vec<MapDiff<K, V>> = Vec::new();
    std::mem::swap(&mut list, &mut routed[route]);
    let ghost before = old(routed)@[route as int]@;
    proof {
        assert(list@ == before);
        assert(flat(before));
        steps_of_push(before, value);
    }
    list.push(value);
    let ghost after = list@;
    routed.set(route, list);
    proof {
        assert(flat(after));
        assert forall|s: int| 0 <= s < routed@.len() implies flat((#[trigger] routed@[s])@) by {
            if s != route {
                assert(routed@[s] == old(routed)@[s]);
            }
        }
        assert(routed_steps(routed@) =~= send(
            routed_steps(old(routed)@),
            route as int,
            value.atom(),
        ));
    }
}

fn reset_routed<K: CellValue, V: CellValue>(routed: &mut Vec<Vec<MapDiff<K, V>>>)
    requires
        all_flat(old(routed)@),
    ensures
        final(routed)@.len() == old(routed)@.len(),
        all_flat(final(routed)@),
        routed_steps(final(routed)@) == send_reset(routed_steps(old(routed)@)),
{
    let mut i: usize = 0;
    let ghost all = routed_steps(old(routed)@);
    while i < routed.len()
        invariant
            i <= routed@.len(),
            routed@.len() == old(routed)@.len(),
            all == routed_steps(old(routed)@),
            all_flat(routed@),
            forall|s: int| 0 <= s < i ==> #[trigger] routed_steps(routed@)[s] == send_reset(all)[s],
            forall|s: int| i <= s < routed@.len() ==> #[trigger] routed_steps(routed@)[s] == all[s],
        decreases routed@.len() - i,
    {
        let ghost before = routed@;
        let reset = MapDiff::Initial { entries: Vec::new() };
        proof {
            assert(reset.atom()->entries =~= Seq::<(K::Model, V::Model)>::empty());
            assert(routed_steps(before)[i as int] == all[i as int]);
        }
        push_routed(routed, i, reset);
        proof {
            assert forall|s: int| 0 <= s < i + 1 implies #[trigger] routed_steps(routed@)[s]
                == send_reset(all)[s] by {
                if s < i {
                    assert(routed_steps(before)[s] == send_reset(all)[s]);
                }
            }
            assert forall|s: int| i + 1 <= s < routed@.len() implies #[trigger] routed_steps(
                routed@,
            )[s] == all[s] by {
                assert(routed_steps(before)[s] == all[s]);
            }
        }
        i += 1;
    }
    assert(routed_steps(routed@) =~= send_reset(all));
}

fn new_routed<K: CellValue, V: CellValue>(count: usize) -> (routed: Vec<Vec<MapDiff<K, V>>>)
    ensures
        routed@.len() == count,
        all_flat(routed@),
        routed_steps(routed@) == no_routed::<K::Model, V::Model>(count as nat),
{
    let mut routed: Vec<Vec<MapDiff<K, V>>> = Vec::new();
    let mut i: usize = 0;
    while i < count
        invariant
            i <= count,
            routed@.len() == i,
            forall|s: int| 0 <= s < i ==> (#[trigger] routed@[s])@.len() == 0,
        decreases count - i,
    {
        routed.push(Vec::new());
        i += 1;
    }
    proof {
        assert forall|s: int| 0 <= s < routed@.len() implies #[trigger] routed_steps(routed@)[s]
            == Seq::<Change<K::Model, V::Model>>::empty() by {
            assert(routed@[s]@ =~= Seq::empty());
        }
        assert(routed_steps(routed@) =~= no_routed::<K::Model, V::Model>(count as nat));
    }
    routed
}

/// No changes for any of several shards.
pub open spec fn no_routed<K, V>(count: nat) -> Seq<Seq<Change<K, V>>> {
    Seq::new(count, |s: int| Seq::<Change<K, V>>::empty())
}

/// How far the routing of left changes has come: the shard of each row, the order in which the rows
/// came, the place of each changed row in the event, and the changes that each shard gets.
#[verifier::reject_recursive_types(K)]
pub struct LeftRouting<K, V> {
    pub routes: Map<K, usize>,
    pub sequence: Map<K, u64>,
    pub next: u64,
    pub ordinals: Map<K, u64>,
    pub routed: Seq<Seq<Change<K, V>>>,
}

/// The number after `n`, with the first after the last.
pub open spec fn next_number(n: u64) -> u64 {
    if n == u64::MAX {
        0
    } else {
        (n + 1) as u64
    }
}

/// A map with a key set, unless it is there.
pub open spec fn or_insert<K, V>(m: Map<K, V>, k: K, v: V) -> Map<K, V> {
    if m.contains_key(k) {
        m
    } else {
        m.insert(k, v)
    }
}

impl<K, V> LeftRouting<K, V> {
    /// A row of a new beginning: the rows take their places in the order of the entries.
    pub open spec fn enter(self, k: K, v: V, to: spec_fn(K, V) -> int) -> LeftRouting<K, V> {
        LeftRouting {
            routes: self.routes.insert(k, to(k, v) as usize),
            sequence: self.sequence.insert(k, self.next),
            next: next_number(self.next),
            ordinals: self.ordinals.insert(k, self.next),
            routed: send(self.routed, to(k, v), Change::Insert { key: k, value: v }),
        }
    }

    pub open spec fn enter_all(self, entries: Seq<(K, V)>, to: spec_fn(K, V) -> int) -> LeftRouting<
        K,
        V,
    >
        decreases entries.len(),
    {
        if entries.len() == 0 {
            self
        } else {
            self.enter_all(entries.drop_last(), to).enter(entries.last().0, entries.last().1, to)
        }
    }

    /// The shard of a row: the one noted for it, or the one that its old value gives.
    pub open spec fn old_route(self, k: K, old_value: V, to: spec_fn(K, V) -> int) -> int {
        if self.routes.contains_key(k) {
            self.routes[k] as int
        } else {
            to(k, old_value)
        }
    }

    /// Routes a change that stands at a place in its event. A row that moves between shards is
    /// removed from one and inserted into the other.
    pub open spec fn step(self, place: u64, change: Change<K, V>, to: spec_fn(K, V) -> int) -> LeftRouting<
        K,
        V,
    > {
        match change {
            Change::Initial { entries } => LeftRouting {
                routes: Map::empty(),
                sequence: Map::empty(),
                next: 0,
                ordinals: self.ordinals,
                routed: send_reset(self.routed),
            }.enter_all(entries, to),
            Change::Insert { key, value } => LeftRouting {
                routes: self.routes.insert(key, to(key, value) as usize),
                sequence: or_insert(self.sequence, key, self.next),
                next: if self.sequence.contains_key(key) {
                    self.next
                } else {
                    next_number(self.next)
                },
                ordinals: or_insert(self.ordinals, key, place),
                routed: send(self.routed, to(key, value), change),
            },
            Change::Update { key, old_value, new_value } => LeftRouting {
                routes: self.routes.insert(key, to(key, new_value) as usize),
                ordinals: or_insert(self.ordinals, key, place),
                routed: if self.old_route(key, old_value, to) == to(key, new_value) {
                    send(self.routed, to(key, new_value), change)
                } else {
                    send(
                        send(
                            self.routed,
                            self.old_route(key, old_value, to),
                            Change::Remove { key, old_value },
                        ),
                        to(key, new_value),
                        Change::Insert { key, value: new_value },
                    )
                },
                ..self
            },
            Change::Remove { key, old_value } => LeftRouting {
                routes: self.routes.remove(key),
                sequence: self.sequence.remove(key),
                ordinals: or_insert(self.ordinals, key, place),
                routed: send(self.routed, self.old_route(key, old_value, to), change),
                ..self
            },
        }
    }

    /// Routes changes in order.
    pub open spec fn run(
        self,
        steps: Seq<Change<K, V>>,
        to: spec_fn(K, V) -> int,
    ) -> LeftRouting<K, V>
        decreases steps.len(),
    {
        if steps.len() == 0 {
            self
        } else {
            self.run(steps.drop_last(), to).step((steps.len() - 1) as u64, steps.last(), to)
        }
    }
}

/// The shard of each right row that has one, and the changes that each shard gets.
#[verifier::reject_recursive_types(K)]
pub struct RightRouting<K, V> {
    pub routes: Map<K, usize>,
    pub routed: Seq<Seq<Change<K, V>>>,
}

impl<K, V> RightRouting<K, V> {
    /// Sets a new row under the shard that it has, if it has one.
    pub open spec fn enter(
        self,
        k: K,
        v: V,
        to: spec_fn(K, V) -> Option<int>,
    ) -> RightRouting<K, V> {
        match to(k, v) {
            Some(s) => RightRouting {
                routes: self.routes.insert(k, s as usize),
                routed: send(self.routed, s, Change::Insert { key: k, value: v }),
            },
            None => self,
        }
    }

    pub open spec fn enter_all(self, entries: Seq<(K, V)>, to: spec_fn(K, V) -> Option<int>) -> RightRouting<
        K,
        V,
    >
        decreases entries.len(),
    {
        if entries.len() == 0 {
            self
        } else {
            self.enter_all(entries.drop_last(), to).enter(entries.last().0, entries.last().1, to)
        }
    }

    /// The shard of a row: the one noted for it, or the one that its old value gives, if any.
    pub open spec fn old_route(self, k: K, old_value: V, to: spec_fn(K, V) -> Option<int>) -> Option<
        int,
    > {
        if self.routes.contains_key(k) {
            Some(self.routes[k] as int)
        } else {
            to(k, old_value)
        }
    }

    /// Routes a change. A row that moves between shards is removed from one and inserted into the
    /// other; a row without a join key belongs to no shard.
    pub open spec fn step(self, change: Change<K, V>, to: spec_fn(K, V) -> Option<int>) -> RightRouting<
        K,
        V,
    > {
        match change {
            Change::Initial { entries } => RightRouting {
                routes: Map::empty(),
                routed: send_reset(self.routed),
            }.enter_all(entries, to),
            Change::Insert { key, value } => self.enter(key, value, to),
            Change::Update { key, old_value, new_value } => match (
                self.old_route(key, old_value, to),
                to(key, new_value),
            ) {
                (Some(a), Some(b)) => RightRouting {
                    routes: self.routes.insert(key, b as usize),
                    routed: if a == b {
                        send(self.routed, b, change)
                    } else {
                        send(
                            send(self.routed, a, Change::Remove { key, old_value }),
                            b,
                            Change::Insert { key, value: new_value },
                        )
                    },
                },
                (Some(a), None) => RightRouting {
                    routes: self.routes.remove(key),
                    routed: send(self.routed, a, Change::Remove { key, old_value }),
                },
                (None, Some(b)) => RightRouting {
                    routes: self.routes.insert(key, b as usize),
                    routed: send(self.routed, b, Change::Insert { key, value: new_value }),
                },
                (None, None) => self,
            },
            Change::Remove { key, old_value } => match self.old_route(key, old_value, to) {
                Some(a) => RightRouting {
                    routes: self.routes.remove(key),
                    routed: send(self.routed, a, change),
                },
                None => self,
            },
        }
    }

    /// Routes changes in order.
    pub open spec fn run(self, steps: Seq<Change<K, V>>, to: spec_fn(K, V) -> Option<int>) -> RightRouting<
        K,
        V,
    >
        decreases steps.len(),
    {
        if steps.len() == 0 {
            self
        } else {
            self.run(steps.drop_last(), to).step(steps.last(), to)
        }
    }
}

/// The shard of a left row.
pub open spec fn left_to<LK: CellValue, LV: CellValue, JK: MapKey, FL: RowFn<LK, LV, JK>>(
    f: FL,
    start: FxSum,
    count: usize,
) -> spec_fn(LK::Model, LV::Model) -> int {
    |k: LK::Model, v: LV::Model|
        shard_of(fx_code::<JK>(start, image2::<LK, LV, JK, FL>(f, k, v)), count)
}

/// The shard of a right row, if it has a join key.
pub open spec fn right_to<RK: CellValue, RV: CellValue, JK: MapKey, FR: RightJoinKey<RK, RV, JK>>(
    f: FR,
    start: FxSum,
    count: usize,
) -> spec_fn(RK::Model, RV::Model) -> Option<int> {
    |k: RK::Model, v: RV::Model|
        match f.key_of(k, v) {
            Some(j) => Some(shard_of(fx_code::<JK>(start, j), count)),
            None => None,
        }
}

/// Which shard each row of a join belongs to, and the order in which the left rows came.
#[verifier::reject_recursive_types(LK)]
#[verifier::reject_recursive_types(RK)]
pub struct Routes<LK: MapKey, RK: MapKey> {
    hasher: FxState,
    count: usize,
    left_routes: FxMap<LK, usize>,
    right_routes: FxMap<RK, usize>,
    left_sequence: FxMap<LK, u64>,
    next_sequence: u64,
}

impl<LK: MapKey, RK: MapKey> Routes<LK, RK> {
    /// What the hasher of join keys begins with.
    pub closed spec fn start(&self) -> FxSum {
        self.hasher@
    }

    /// The number of shards.
    pub closed spec fn count(&self) -> usize {
        self.count
    }

    /// The shard of each left row.
    pub closed spec fn left_routes(&self) -> Map<LK::Model, usize> {
        self.left_routes@
    }

    /// The shard of each right row that has one.
    pub closed spec fn right_routes(&self) -> Map<RK::Model, usize> {
        self.right_routes@
    }

    /// The place of each left row in the order in which the rows came.
    pub closed spec fn sequence(&self) -> Map<LK::Model, u64> {
        self.left_sequence@
    }

    /// The place of the next left row.
    pub closed spec fn next(&self) -> u64 {
        self.next_sequence
    }

    /// The routing of left changes, with nothing routed yet.
    pub open spec fn left<LV>(&self) -> LeftRouting<LK::Model, LV> {
        LeftRouting {
            routes: self.left_routes(),
            sequence: self.sequence(),
            next: self.next(),
            ordinals: Map::empty(),
            routed: no_routed(self.count() as nat),
        }
    }

    /// The routing of right changes, with nothing routed yet.
    pub open spec fn right<RV>(&self) -> RightRouting<RK::Model, RV> {
        RightRouting { routes: self.right_routes(), routed: no_routed(self.count() as nat) }
    }

    /// The shards noted for rows are among the shards that there are.
    pub closed spec fn wf(&self) -> bool {
        &&& self.count >= 1
        &&& forall|k: LK::Model| #[trigger]
            self.left_routes@.contains_key(k) ==> self.left_routes@[k] < self.count
        &&& forall|k: RK::Model| #[trigger]
            self.right_routes@.contains_key(k) ==> self.right_routes@[k] < self.count
    }

    pub fn new(shard_count: usize) -> (routes: Routes<LK, RK>)
        ensures
            routes.wf(),
            routes.count() == if shard_count == 0 {
                1
            } else {
                shard_count
            },
            routes.left_routes() == Map::<LK::Model, usize>::empty(),
            routes.sequence() == Map::<LK::Model, u64>::empty(),
            routes.next() == 0,
            routes.start().state == 0,
            routes.right_routes() == Map::<RK::Model, usize>::empty(),
    {
        Routes {
            hasher: FxState::new(),
            count: if shard_count == 0 {
                1
            } else {
                shard_count
            },
            left_routes: FxMap::new(),
            right_routes: FxMap::new(),
            left_sequence: FxMap::new(),
            next_sequence: 0,
        }
    }

    pub proof fn ranges(&self)
        requires
            self.wf(),
        ensures
            self.count() >= 1,
            forall|k: LK::Model| #[trigger]
                self.left_routes().contains_key(k) ==> self.left_routes()[k] < self.count(),
            forall|k: RK::Model| #[trigger]
                self.right_routes().contains_key(k) ==> self.right_routes()[k] < self.count(),
    {
    }

    /// The shard noted for a left row.
    pub fn left_route(&self, key: &LK) -> (route: Option<usize>)
        requires
            self.wf(),
        ensures
            route == lookup(self.left_routes(), key.model()),
            route is Some ==> route->Some_0 < self.count(),
    {
        match self.left_routes.get(key) {
            Some(route) => Some(*route),
            None => None,
        }
    }

    fn enter_left<LV: CellValue, JK: MapKey, FL: RowFn<LK, LV, JK>>(
        &mut self,
        key: &LK,
        value: &LV,
        left_join_key: &FL,
        routed: &mut Vec<Vec<MapDiff<LK, LV>>>,
        ordinals: &mut FxMap<LK, u64>,
        Ghost(before): Ghost<LeftRouting<LK::Model, LV::Model>>,
    )
        requires
            old(self).wf(),
            pure2::<LK, LV, JK, FL>(*left_join_key),
            old(routed)@.len() == old(self).count(),
            all_flat(old(routed)@),
            old(self).at(before, old(ordinals)@, routed_steps(old(routed)@)),
        ensures
            final(self).wf(),
            final(self).count() == old(self).count(),
            final(self).start() == old(self).start(),
            final(self).right_routes() == old(self).right_routes(),
            final(routed)@.len() == old(routed)@.len(),
            all_flat(final(routed)@),
            final(self).at(
                before.enter(
                    key.model(),
                    value.model(),
                    left_to::<LK, LV, JK, FL>(*left_join_key, old(self).start(), old(self).count()),
                ),
                final(ordinals)@,
                routed_steps(final(routed)@),
            ),
    {
        let join_key = call2(left_join_key, key, value);
        let route = shard_for(&join_key, &self.hasher, self.count);
        push_routed(
            routed,
            route,
            MapDiff::Insert { key: key.clone_value(), value: value.clone_value() },
        );
        self.left_routes.insert(key.clone_value(), route);
        self.left_sequence.insert(key.clone_value(), self.next_sequence);
        ordinals.insert(key.clone_value(), self.next_sequence);
        self.next_sequence = self.next_sequence.wrapping_add(1);
    }

    /// The routes, the places and the routed changes are those that a routing has come to.
    pub open spec fn at<LV>(
        &self,
        routing: LeftRouting<LK::Model, LV>,
        ordinals: Map<LK::Model, u64>,
        routed: Seq<Seq<Change<LK::Model, LV>>>,
    ) -> bool {
        &&& routing.routes == self.left_routes()
        &&& routing.sequence == self.sequence()
        &&& routing.next == self.next()
        &&& routing.ordinals == ordinals
        &&& routing.routed == routed
    }

    fn note_place(ordinals: &mut FxMap<LK, u64>, key: &LK, place: u64)
        ensures
            final(ordinals)@ == or_insert(old(ordinals)@, key.model(), place),
    {
        if !ordinals.contains_key(key) {
            ordinals.insert(key.clone_value(), place);
        }
    }

    fn route_left_change<LV: CellValue, JK: MapKey, FL: RowFn<LK, LV, JK>>(
        &mut self,
        place: u64,
        change: &MapDiff<LK, LV>,
        left_join_key: &FL,
        routed: &mut Vec<Vec<MapDiff<LK, LV>>>,
        ordinals: &mut FxMap<LK, u64>,
        Ghost(before): Ghost<LeftRouting<LK::Model, LV::Model>>,
    )
        requires
            old(self).wf(),
            pure2::<LK, LV, JK, FL>(*left_join_key),
            !(change is Batch),
            old(routed)@.len() == old(self).count(),
            all_flat(old(routed)@),
            old(self).at(before, old(ordinals)@, routed_steps(old(routed)@)),
        ensures
            final(self).wf(),
            final(self).count() == old(self).count(),
            final(self).start() == old(self).start(),
            final(self).right_routes() == old(self).right_routes(),
            final(routed)@.len() == old(routed)@.len(),
            all_flat(final(routed)@),
            final(self).at(
                before.step(
                    place,
                    change.atom(),
                    left_to::<LK, LV, JK, FL>(*left_join_key, old(self).start(), old(self).count()),
                ),
                final(ordinals)@,
                routed_steps(final(routed)@),
            ),
    {
        let ghost to = left_to::<LK, LV, JK, FL>(*left_join_key, self.start(), self.count);
        match change {
            MapDiff::Initial { entries } => {
                reset_routed(routed);
                self.left_routes.clear();
                self.left_sequence.clear();
                self.next_sequence = 0;
                let ghost all = models(entries@);
                let ghost base = LeftRouting::<LK::Model, LV::Model> {
                    routes: Map::empty(),
                    sequence: Map::empty(),
                    next: 0,
                    ordinals: before.ordinals,
                    routed: send_reset(before.routed),
                };
                let mut i: usize = 0;
                assert(all.take(0) =~= Seq::empty());
                while i < entries.len()
                    invariant
                        i <= entries@.len(),
                        all == models(entries@),
                        pure2::<LK, LV, JK, FL>(*left_join_key),
                        to == left_to::<LK, LV, JK, FL>(*left_join_key, old(self).start(), old(self).count()),
                        self.wf(),
                        self.count() == old(self).count(),
                        self.start() == old(self).start(),
                        self.right_routes() == old(self).right_routes(),
                        routed@.len() == self.count(),
                        all_flat(routed@),
                        self.at(base.enter_all(all.take(i as int), to), ordinals@, routed_steps(routed@)),
                    decreases entries@.len() - i,
                {
                    let (key, value) = &entries[i];
                    proof {
                        assert(all.take(i + 1).drop_last() =~= all.take(i as int));
                        assert(all.take(i + 1).last() == (key.model(), value.model()));
                    }
                    self.enter_left(
                        key,
                        value,
                        left_join_key,
                        routed,
                        ordinals,
                        Ghost(base.enter_all(all.take(i as int), to)),
                    );
                    i += 1;
                }
                assert(all.take(i as int) =~= all);
            },
            MapDiff::Insert { key, value } => {
                let join_key = call2(left_join_key, key, value);
                let route = shard_for(&join_key, &self.hasher, self.count);
                push_routed(routed, route, change.clone_diff());
                self.left_routes.insert(key.clone_value(), route);
                if !self.left_sequence.contains_key(key) {
                    self.left_sequence.insert(key.clone_value(), self.next_sequence);
                    self.next_sequence = self.next_sequence.wrapping_add(1);
                }
                Self::note_place(ordinals, key, place);
            },
            MapDiff::Update { key, old_value, new_value } => {
                let new_join_key = call2(left_join_key, key, new_value);
                let new_route = shard_for(&new_join_key, &self.hasher, self.count);
                let old_route: usize = match self.left_routes.get(key) {
                    Some(route) => *route,
                    None => {
                        let old_join_key = call2(left_join_key, key, old_value);
                        shard_for(&old_join_key, &self.hasher, self.count)
                    },
                };
                if old_route == new_route {
                    push_routed(routed, new_route, change.clone_diff());
                } else {
                    push_routed(
                        routed,
                        old_route,
                        MapDiff::Remove {
                            key: key.clone_value(),
                            old_value: old_value.clone_value(),
                        },
                    );
                    push_routed(
                        routed,
                        new_route,
                        MapDiff::Insert { key: key.clone_value(), value: new_value.clone_value() },
                    );
                }
                self.left_routes.insert(key.clone_value(), new_route);
                Self::note_place(ordinals, key, place);
            },
            MapDiff::Remove { key, old_value } => {
                let route: usize = match self.left_routes.remove(key) {
                    Some(route) => route,
                    None => {
                        let old_join_key = call2(left_join_key, key, old_value);
                        shard_for(&old_join_key, &self.hasher, self.count)
                    },
                };
                push_routed(routed, route, change.clone_diff());
                self.left_sequence.remove(key);
                Self::note_place(ordinals, key, place);
            },
            MapDiff::Batch { .. } => {},
        }
    }

    /// Routes left changes that are not batches to the shards, in order, and notes the place of each
    /// changed row.
    pub fn route_left_owned<LV: CellValue, JK: MapKey, FL: RowFn<LK, LV, JK>>(
        &mut self,
        flattened: &Vec<MapDiff<LK, LV>>,
        left_join_key: &FL,
    ) -> (result: (Vec<Vec<MapDiff<LK, LV>>>, FxMap<LK, u64>))
        requires
            old(self).wf(),
            pure2::<LK, LV, JK, FL>(*left_join_key),
            flat(flattened@),
        ensures
            final(self).wf(),
            final(self).count() == old(self).count(),
            final(self).start() == old(self).start(),
            final(self).right_routes() == old(self).right_routes(),
            result.0@.len() == final(self).count(),
            all_flat(result.0@),
            final(self).at(
                old(self).left::<LV::Model>().run(
                    steps_of(flattened@),
                    left_to::<LK, LV, JK, FL>(*left_join_key, old(self).start(), old(self).count()),
                ),
                result.1@,
                routed_steps(result.0@),
            ),
    {
        let ghost to = left_to::<LK, LV, JK, FL>(*left_join_key, self.start(), self.count);
        let ghost start = self.left::<LV::Model>();
        let ghost steps = steps_of(flattened@);
        let mut routed: Vec<Vec<MapDiff<LK, LV>>> = new_routed(self.count);
        let mut ordinals: FxMap<LK, u64> = FxMap::new();
        let mut i: usize = 0;
        proof {
            steps_of_flat(flattened@);
            assert(steps.take(0) =~= Seq::empty());
        }
        while i < flattened.len()
            invariant
                i <= flattened@.len(),
                flat(flattened@),
                steps == steps_of(flattened@),
                steps.len() == flattened@.len(),
                forall|n: int| 0 <= n < flattened@.len() ==> #[trigger] steps[n] == flattened@[n].atom(),
                pure2::<LK, LV, JK, FL>(*left_join_key),
                to == left_to::<LK, LV, JK, FL>(*left_join_key, old(self).start(), old(self).count()),
                start == old(self).left::<LV::Model>(),
                self.wf(),
                self.count() == old(self).count(),
                self.start() == old(self).start(),
                self.right_routes() == old(self).right_routes(),
                routed@.len() == self.count(),
                all_flat(routed@),
                self.at(start.run(steps.take(i as int), to), ordinals@, routed_steps(routed@)),
            decreases flattened@.len() - i,
        {
            proof {
                assert(steps.take(i + 1).drop_last() =~= steps.take(i as int));
                assert(steps.take(i + 1).last() == steps[i as int]);
            }
            self.route_left_change(
                i as u64,
                &flattened[i],
                left_join_key,
                &mut routed,
                &mut ordinals,
                Ghost(start.run(steps.take(i as int), to)),
            );
            i += 1;
        }
        assert(steps.take(i as int) =~= steps);
        (routed, ordinals)
    }

    /// The routes and the routed changes are those that a routing has come to.
    pub open spec fn right_at<RV>(
        &self,
        routing: RightRouting<RK::Model, RV>,
        routed: Seq<Seq<Change<RK::Model, RV>>>,
    ) -> bool {
        &&& routing.routes == self.right_routes()
        &&& routing.routed == routed
    }

    fn right_route<RV: CellValue, JK: MapKey, FR: RightJoinKey<RK, RV, JK>>(
        &self,
        key: &RK,
        value: &RV,
        right_join_key: &FR,
    ) -> (route: Option<usize>)
        requires
            self.wf(),
            right_join_key.lawful(),
        ensures
            ({
                let to = right_to::<RK, RV, JK, FR>(*right_join_key, self.start(), self.count())(
                    key.model(),
                    value.model(),
                );
                &&& route is Some == to is Some
                &&& route is Some ==> route->Some_0 == to->Some_0 && route->Some_0 < self.count()
            }),
    {
        match right_join_key.right_join_key(key, value) {
            Some(join_key) => Some(shard_for(&join_key, &self.hasher, self.count)),
            None => None,
        }
    }

    fn enter_right<RV: CellValue, JK: MapKey, FR: RightJoinKey<RK, RV, JK>>(
        &mut self,
        key: &RK,
        value: &RV,
        right_join_key: &FR,
        routed: &mut Vec<Vec<MapDiff<RK, RV>>>,
        Ghost(before): Ghost<RightRouting<RK::Model, RV::Model>>,
    )
        requires
            old(self).wf(),
            right_join_key.lawful(),
            old(routed)@.len() == old(self).count(),
            all_flat(old(routed)@),
            old(self).right_at(before, routed_steps(old(routed)@)),
        ensures
            final(self).wf(),
            final(self).count() == old(self).count(),
            final(self).start() == old(self).start(),
            final(self).left_routes() == old(self).left_routes(),
            final(self).sequence() == old(self).sequence(),
            final(self).next() == old(self).next(),
            final(routed)@.len() == old(routed)@.len(),
            all_flat(final(routed)@),
            final(self).right_at(
                before.enter(
                    key.model(),
                    value.model(),
                    right_to::<RK, RV, JK, FR>(*right_join_key, old(self).start(), old(self).count()),
                ),
                routed_steps(final(routed)@),
            ),
    {
        match self.right_route(key, value, right_join_key) {
            Some(route) => {
                push_routed(
                    routed,
                    route,
                    MapDiff::Insert { key: key.clone_value(), value: value.clone_value() },
                );
                self.right_routes.insert(key.clone_value(), route);
            },
            None => {},
        }
    }

    fn route_right_change<RV: CellValue, JK: MapKey, FR: RightJoinKey<RK, RV, JK>>(
        &mut self,
        change: &MapDiff<RK, RV>,
        right_join_key: &FR,
        routed: &mut Vec<Vec<MapDiff<RK, RV>>>,
        Ghost(before): Ghost<RightRouting<RK::Model, RV::Model>>,
    )
        requires
            old(self).wf(),
            right_join_key.lawful(),
            !(change is Batch),
            old(routed)@.len() == old(self).count(),
            all_flat(old(routed)@),
            old(self).right_at(before, routed_steps(old(routed)@)),
        ensures
            final(self).wf(),
            final(self).count() == old(self).count(),
            final(self).start() == old(self).start(),
            final(self).left_routes() == old(self).left_routes(),
            final(self).sequence() == old(self).sequence(),
            final(self).next() == old(self).next(),
            final(routed)@.len() == old(routed)@.len(),
            all_flat(final(routed)@),
            final(self).right_at(
                before.step(
                    change.atom(),
                    right_to::<RK, RV, JK, FR>(*right_join_key, old(self).start(), old(self).count()),
                ),
                routed_steps(final(routed)@),
            ),
    {
        let ghost to = right_to::<RK, RV, JK, FR>(*right_join_key, self.start(), self.count);
        match change {
            MapDiff::Initial { entries } => {
                reset_routed(routed);
                self.right_routes.clear();
                let ghost all = models(entries@);
                let ghost base = RightRouting::<RK::Model, RV::Model> {
                    routes: Map::empty(),
                    routed: send_reset(before.routed),
                };
                let mut i: usize = 0;
                assert(all.take(0) =~= Seq::empty());
                while i < entries.len()
                    invariant
                        i <= entries@.len(),
                        all == models(entries@),
                        right_join_key.lawful(),
                        to == right_to::<RK, RV, JK, FR>(*right_join_key, old(self).start(), old(self).count()),
                        self.wf(),
                        self.count() == old(self).count(),
                        self.start() == old(self).start(),
                        self.left_routes() == old(self).left_routes(),
                self.sequence() == old(self).sequence(),
                self.next() == old(self).next(),
                        routed@.len() == self.count(),
                        all_flat(routed@),
                        self.right_at(base.enter_all(all.take(i as int), to), routed_steps(routed@)),
                    decreases entries@.len() - i,
                {
                    let (key, value) = &entries[i];
                    proof {
                        assert(all.take(i + 1).drop_last() =~= all.take(i as int));
                        assert(all.take(i + 1).last() == (key.model(), value.model()));
                    }
                    self.enter_right(
                        key,
                        value,
                        right_join_key,
                        routed,
                        Ghost(base.enter_all(all.take(i as int), to)),
                    );
                    i += 1;
                }
                assert(all.take(i as int) =~= all);
            },
            MapDiff::Insert { key, value } => {
                self.enter_right(key, value, right_join_key, routed, Ghost(before));
            },
            MapDiff::Update { key, old_value, new_value } => {
                let new_route = self.right_route(key, new_value, right_join_key);
                let computed = self.right_route(key, old_value, right_join_key);
                let old_route: Option<usize> = match self.right_routes.remove(key) {
                    Some(route) => Some(route),
                    None => computed,
                };
                match (old_route, new_route) {
                    (Some(old_shard), Some(new_shard)) => {
                        if old_shard == new_shard {
                            push_routed(routed, new_shard, change.clone_diff());
                        } else {
                            push_routed(
                                routed,
                                old_shard,
                                MapDiff::Remove {
                                    key: key.clone_value(),
                                    old_value: old_value.clone_value(),
                                },
                            );
                            push_routed(
                                routed,
                                new_shard,
                                MapDiff::Insert {
                                    key: key.clone_value(),
                                    value: new_value.clone_value(),
                                },
                            );
                        }
                        self.right_routes.insert(key.clone_value(), new_shard);
                        assert(self.right_routes@ =~= before.routes.insert(key.model(), new_shard));
                    },
                    (Some(old_shard), None) => {
                        push_routed(
                            routed,
                            old_shard,
                            MapDiff::Remove {
                                key: key.clone_value(),
                                old_value: old_value.clone_value(),
                            },
                        );
                    },
                    (None, Some(new_shard)) => {
                        push_routed(
                            routed,
                            new_shard,
                            MapDiff::Insert {
                                key: key.clone_value(),
                                value: new_value.clone_value(),
                            },
                        );
                        self.right_routes.insert(key.clone_value(), new_shard);
                        assert(self.right_routes@ =~= before.routes.insert(key.model(), new_shard));
                    },
                    (None, None) => {
                        assert(self.right_routes@ =~= before.routes);
                    },
                }
            },
            MapDiff::Remove { key, old_value } => {
                let computed = self.right_route(key, old_value, right_join_key);
                let route: Option<usize> = match self.right_routes.remove(key) {
                    Some(route) => Some(route),
                    None => computed,
                };
                match route {
                    Some(shard) => push_routed(routed, shard, change.clone_diff()),
                    None => {
                        assert(self.right_routes@ =~= before.routes);
                    },
                }
            },
            MapDiff::Batch { .. } => {},
        }
    }

    /// Routes the changes of a right diff to the shards.
    pub fn route_right<RV: CellValue, JK: MapKey, FR: RightJoinKey<RK, RV, JK>>(
        &mut self,
        diff: &MapDiff<RK, RV>,
        right_join_key: &FR,
    ) -> (routed: Vec<Vec<MapDiff<RK, RV>>>)
        requires
            old(self).wf(),
            right_join_key.lawful(),
        ensures
            final(self).wf(),
            final(self).count() == old(self).count(),
            final(self).start() == old(self).start(),
            final(self).left_routes() == old(self).left_routes(),
            final(self).sequence() == old(self).sequence(),
            final(self).next() == old(self).next(),
            routed@.len() == final(self).count(),
            all_flat(routed@),
            final(self).right_at(
                old(self).right::<RV::Model>().run(
                    diff.steps(),
                    right_to::<RK, RV, JK, FR>(*right_join_key, old(self).start(), old(self).count()),
                ),
                routed_steps(routed@),
            ),
    {
        let ghost to = right_to::<RK, RV, JK, FR>(*right_join_key, self.start(), self.count);
        let ghost start = self.right::<RV::Model>();
        let ghost steps = diff.steps();
        let mut routed: Vec<Vec<MapDiff<RK, RV>>> = new_routed(self.count);
        let leaves = diff.leaves();
        let mut i: usize = 0;
        assert(steps.take(0) =~= Seq::empty());
        while i < leaves.len()
            invariant
                i <= leaves@.len(),
                all_leaves(leaves@),
                atoms(leaves@) == steps,
                right_join_key.lawful(),
                to == right_to::<RK, RV, JK, FR>(*right_join_key, old(self).start(), old(self).count()),
                start == old(self).right::<RV::Model>(),
                self.wf(),
                self.count() == old(self).count(),
                self.start() == old(self).start(),
                self.left_routes() == old(self).left_routes(),
                self.sequence() == old(self).sequence(),
                self.next() == old(self).next(),
                routed@.len() == self.count(),
                all_flat(routed@),
                self.right_at(start.run(steps.take(i as int), to), routed_steps(routed@)),
            decreases leaves@.len() - i,
        {
            proof {
                assert(steps[i as int] == leaves@[i as int].atom());
                assert(steps.take(i + 1).drop_last() =~= steps.take(i as int));
                assert(steps.take(i + 1).last() == steps[i as int]);
            }
            self.route_right_change(
                leaves[i],
                right_join_key,
                &mut routed,
                Ghost(start.run(steps.take(i as int), to)),
            );
            i += 1;
        }
        assert(steps.take(i as int) =~= steps);
        routed
    }
}

/// The rank of a change in the merge: the place of its key, its phase, and its place in its shard.
pub open spec fn merge_rank<K, V>(
    place: spec_fn(K) -> u64,
    change: Change<K, V>,
    local: int,
) -> Rank {
    (
        match change_key(change) {
            Some(k) => place(k),
            None => u64::MAX,
        },
        merge_phase(change),
        local as u64,
        0,
    )
}

/// The changes of several shards with their ranks, one shard after the other.
pub open spec fn tagged<K, V>(shards: Seq<Seq<Change<K, V>>>, place: spec_fn(K) -> u64) -> Seq<
    (Rank, Change<K, V>),
>
    decreases shards.len(),
{
    if shards.len() == 0 {
        Seq::empty()
    } else {
        tagged(shards.drop_last(), place) + Seq::new(
            shards.last().len(),
            |l: int| (merge_rank(place, shards.last()[l], l), shards.last()[l]),
        )
    }
}

/// `merged` holds the changes of several shards in the order of their ranks.
pub open spec fn merges<K, V>(
    shards: Seq<Seq<Change<K, V>>>,
    place: spec_fn(K) -> u64,
    merged: Seq<Change<K, V>>,
) -> bool {
    exists|sorted: Seq<(Rank, Change<K, V>)>, order: Seq<int>| #[trigger]
        sorted_by(tagged(shards, place), sorted, order) && merged == sorted.map_values(
            |e: (Rank, Change<K, V>)| e.1,
        )
}

/// The place of a key in a merge: the one that the event gives it, or else its place in the order
/// in which the rows came.
pub open spec fn merge_place<K>(ordinals: Map<K, u64>, sequence: Map<K, u64>) -> spec_fn(K) -> u64 {
    |k: K|
        if ordinals.contains_key(k) {
            ordinals[k]
        } else if sequence.contains_key(k) {
            sequence[k]
        } else {
            u64::MAX
        }
}

impl<LK: MapKey, RK: MapKey> Routes<LK, RK> {
    /// Puts the changes of the shards into one order.
    pub fn merge_changes<OV: CellValue>(
        &self,
        shard_changes: &Vec<Vec<MapDiff<LK, OV>>>,
        event_ordinals: &FxMap<LK, u64>,
    ) -> (merged: Vec<MapDiff<LK, OV>>)
        requires
            all_flat(shard_changes@),
        ensures
            flat(merged@),
            merges(
                routed_steps(shard_changes@),
                merge_place(event_ordinals@, self.sequence()),
                steps_of(merged@),
            ),
    {
        let ghost shards = routed_steps(shard_changes@);
        let ghost place = merge_place(event_ordinals@, self.sequence());
        let ghost untag = |e: (Rank, MapDiff<LK, OV>)| (e.0, e.1.atom());
        let mut items: Vec<(Rank, MapDiff<LK, OV>)> = Vec::new();
        let mut s: usize = 0;
        proof {
            assert(shards.take(0) =~= Seq::empty());
            assert(items@.map_values(untag) =~= tagged(shards.take(0), place));
        }
        while s < shard_changes.len()
            invariant
                s <= shard_changes@.len(),
                all_flat(shard_changes@),
                shards == routed_steps(shard_changes@),
                place == merge_place(event_ordinals@, self.sequence()),
                untag == (|e: (Rank, MapDiff<LK, OV>)| (e.0, e.1.atom())),
                forall|n: int| 0 <= n < items@.len() ==> !((#[trigger] items@[n]).1 is Batch),
                items@.map_values(untag) == tagged(shards.take(s as int), place),
            decreases shard_changes@.len() - s,
        {
            let changes = &shard_changes[s];
            let ghost start = items@.map_values(untag);
            let ghost own = shards[s as int];
            let ghost ranked = Seq::new(
                own.len(),
                |l: int| (merge_rank(place, own[l], l), own[l]),
            );
            let mut l: usize = 0;
            proof {
                assert(flat(changes@));
                steps_of_flat(changes@);
                assert(start + ranked.take(0) =~= start);
            }
            while l < changes.len()
                invariant
                    l <= changes@.len(),
                    flat(changes@),
                    own == steps_of(changes@),
                    own.len() == changes@.len(),
                    forall|n: int| 0 <= n < own.len() ==> #[trigger] own[n] == changes@[n].atom(),
                    place == merge_place(event_ordinals@, self.sequence()),
                    untag == (|e: (Rank, MapDiff<LK, OV>)| (e.0, e.1.atom())),
                    ranked == Seq::new(own.len(), |l: int| (merge_rank(place, own[l], l), own[l])),
                    forall|n: int| 0 <= n < items@.len() ==> !((#[trigger] items@[n]).1 is Batch),
                    items@.map_values(untag) == start + ranked.take(l as int),
                decreases changes@.len() - l,
            {
                let change = changes[l].clone_diff();
                let ordinal: u64 = match change.atomic_key() {
                    Some(key) => match event_ordinals.get(key) {
                        Some(ordinal) => *ordinal,
                        None => match self.left_sequence.get(key) {
                            Some(ordinal) => *ordinal,
                            None => u64::MAX,
                        },
                    },
                    None => u64::MAX,
                };
                let phase = diff_merge_phase(&change);
                let item: (Rank, MapDiff<LK, OV>) = ((ordinal, phase, l as u64, 0), change);
                proof {
                    assert(!(changes@[l as int] is Batch));
                    assert(own[l as int] == change.atom());
                    assert(untag(item) == ranked[l as int]);
                    assert(items@.push(item).map_values(untag) =~= items@.map_values(untag).push(
                        untag(item),
                    ));
                    assert((start + ranked.take(l as int)).push(ranked[l as int]) =~= start
                        + ranked.take(l + 1));
                }
                items.push(item);
                l += 1;
            }
            proof {
                assert(ranked.take(l as int) =~= ranked);
                assert(shards.take(s + 1).drop_last() =~= shards.take(s as int));
                assert(shards.take(s + 1).last() == own);
            }
            s += 1;
        }
        assert(shards.take(s as int) =~= shards);
        let ghost before = items@;
        sort_ranked(&mut items);
        let ghost after = items@;
        let ghost order = choose|order: Seq<int>| #[trigger] sorted_by(before, after, order);
        let ghost sorted = after.map_values(untag);
        proof {
            assert forall|n: int| 0 <= n < after.len() implies !((#[trigger] after[n]).1 is Batch) by {
                assert(after[n] == before[order[n]]);
                assert(0 <= order[n] < before.len());
            }
            assert(sorted_by(before.map_values(untag), sorted, order)) by {
                assert forall|i: int| 0 <= i < sorted.len() implies #[trigger] sorted[i]
                    == before.map_values(untag)[order[i]] by {
                    assert(after[i] == before[order[i]]);
                    assert(0 <= order[i] < before.len());
                }
                assert forall|i: int, j: int| 0 <= i < j < sorted.len() implies crate::merge::rank_before(
                    #[trigger] sorted[i].0,
                    #[trigger] sorted[j].0,
                ) || (sorted[i].0 == sorted[j].0 && order[i] < order[j]) by {
                    assert(crate::merge::rank_before(after[i].0, after[j].0) || (after[i].0
                        == after[j].0 && order[i] < order[j]));
                }
            }
        }
        let mut merged: Vec<MapDiff<LK, OV>> = Vec::new();
        let ghost want = sorted.map_values(|e: (Rank, Change<LK::Model, OV::Model>)| e.1);
        let mut n: usize = 0;
        assert(want.take(0) =~= Seq::empty());
        while n < items.len()
            invariant
                n <= items@.len(),
                items@ == after,
                untag == (|e: (Rank, MapDiff<LK, OV>)| (e.0, e.1.atom())),
                sorted == after.map_values(untag),
                want == sorted.map_values(|e: (Rank, Change<LK::Model, OV::Model>)| e.1),
                forall|i: int| 0 <= i < after.len() ==> !((#[trigger] after[i]).1 is Batch),
                flat(merged@),
                steps_of(merged@) == want.take(n as int),
            decreases items@.len() - n,
        {
            let change = items[n].1.clone_diff();
            proof {
                assert(!(after[n as int].1 is Batch));
                steps_of_push(merged@, change);
                assert(want[n as int] == change.atom());
                assert(want.take(n as int).push(want[n as int]) =~= want.take(n + 1));
            }
            merged.push(change);
            n += 1;
        }
        proof {
            assert(want.take(n as int) =~= want);
            assert(sorted_by(tagged(shards, place), sorted, order));
        }
        merged
    }
}

} // verus!
