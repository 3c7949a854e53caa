//! A join whose rows are divided among shards by join key.
use vstd::prelude::*;

use crate::delta::{delta, delta_replays};
use crate::diff::{appends_steps, fits_all, flat, replay, saturated, steps_of, Change, MapDiff};
use crate::foreign_key::{right_key, RightJoinKey};
use crate::func::{pure2, RowFn};
use crate::fx::{fx_code, lookup, FxMap, FxSum};
use crate::index::{empty_side, total_key, Side};
use crate::join_region::declaration::{projection, StageProject};
use crate::join_runtime::sharded::{
    left_to, merge_place, merges, right_to, routed_steps, shard_of, shard_route, Routes,
    PARALLEL_SHARD_WORK,
};
use crate::join_runtime::sharded_laws::{
    delta_tells, follow_left, follow_right, joined_part, left_shards, merged_replays, right_shards,
    routes_agree, tells,
};
use crate::join_runtime::state::{joined, joined_lookup, KeyedJoin, RelationIndex};
use crate::parallel::{par_zip_map, zip_map, WorkerPool};
use crate::shard::{part, side_ext};
use crate::value::{CellValue, MapKey};

verus! {

/// One shard of a join: the rows whose join keys it is responsible for.
#[verifier::reject_recursive_types(LK)]
#[verifier::reject_recursive_types(LV)]
#[verifier::reject_recursive_types(RK)]
#[verifier::reject_recursive_types(RV)]
#[verifier::reject_recursive_types(JK)]
#[verifier::reject_recursive_types(OV)]
pub struct JoinShard<
    LK: MapKey,
    LV: CellValue,
    RK: MapKey,
    RV: CellValue,
    JK: MapKey,
    OV: CellValue,
> {
    half: KeyedJoin<LK, LV, JK, OV>,
    right: RelationIndex<RK, RV, JK>,
}

impl<
    LK: MapKey,
    LV: CellValue,
    RK: MapKey,
    RV: CellValue,
    JK: MapKey,
    OV: CellValue,
> JoinShard<LK, LV, RK, RV, JK, OV> {
    /// The left rows of the shard.
    pub closed spec fn left(&self) -> Side<LK::Model, LV::Model, JK::Model> {
        self.half.left()
    }

    /// The right rows of the shard.
    pub closed spec fn right(&self) -> Side<RK::Model, RV::Model, JK::Model> {
        self.right@
    }

    /// The kept output of the shard.
    pub closed spec fn output(&self) -> Map<LK::Model, OV::Model> {
        self.half.output()
    }

    pub closed spec fn index_wf(&self) -> bool {
        self.right.wf()
    }

    /// The output of the shard is the join of its rows.
    pub open spec fn wf(
        &self,
        project: spec_fn(LK::Model, LV::Model, Seq<(RK::Model, RV::Model)>) -> Option<OV::Model>,
    ) -> bool {
        &&& self.index_wf()
        &&& self.left().wf()
        &&& self.right().wf()
        &&& self.output() == joined(self.left(), self.right(), project)
    }

    /// The output of the shard is what a projection makes of its rows.
    pub open spec fn ready<P: StageProject<LK, LV, RK, RV, OV>>(&self, project: &P) -> bool {
        self.wf(projection::<LK, LV, RK, RV, OV, P>(*project))
    }

    /// What following left changes makes of the shard, and what it tells.
    pub open spec fn left_processed<FL: RowFn<LK, LV, JK>, P: StageProject<LK, LV, RK, RV, OV>>(
        &self,
        diffs: &Vec<MapDiff<LK, LV>>,
        result: &(Self, Vec<MapDiff<LK, OV>>),
        left_join_key: &FL,
        project: &P,
    ) -> bool {
        &&& result.0.ready(project)
        &&& result.0.left() == self.left().run(
            steps_of(diffs@),
            total_key::<LK, LV, JK, FL>(*left_join_key),
        )
        &&& result.0.right() == self.right()
        &&& flat(result.1@)
        &&& tells(self.output(), result.0.output(), steps_of(result.1@))
    }

    /// What following right changes makes of the shard, and what it tells.
    pub open spec fn right_processed<FR: RightJoinKey<RK, RV, JK>, P: StageProject<LK, LV, RK, RV, OV>>(
        &self,
        diffs: &Vec<MapDiff<RK, RV>>,
        result: &(Self, Vec<MapDiff<LK, OV>>),
        right_join_key: &FR,
        project: &P,
    ) -> bool {
        &&& result.0.ready(project)
        &&& result.0.left() == self.left()
        &&& result.0.right() == self.right().run(
            steps_of(diffs@),
            right_key::<RK, RV, JK, FR>(*right_join_key),
        )
        &&& flat(result.1@)
        &&& tells(self.output(), result.0.output(), steps_of(result.1@))
    }

    pub fn new() -> (shard: Self)
        ensures
            shard.index_wf(),
            shard.left() == empty_side::<LK::Model, LV::Model, JK::Model>(),
            shard.right() == empty_side::<RK::Model, RV::Model, JK::Model>(),
            shard.output() == Map::<LK::Model, OV::Model>::empty(),
    {
        JoinShard { half: KeyedJoin::new(), right: RelationIndex::new() }
    }

    /// The kept output at a key.
    pub fn get(&self, key: &LK) -> (value: Option<&OV>)
        ensures
            value is Some == self.output().contains_key(key.model()),
            value is Some ==> value->Some_0.model() == self.output()[key.model()],
    {
        self.half.get(key)
    }

    /// Follows left changes as one event, and tells how the output changes.
    pub fn process_left<FL: RowFn<LK, LV, JK>, P: StageProject<LK, LV, RK, RV, OV>>(
        self,
        diffs: Vec<MapDiff<LK, LV>>,
        left_join_key: &FL,
        project: &P,
        pool: Option<&WorkerPool>,
    ) -> (result: (Self, Vec<MapDiff<LK, OV>>))
        requires
            self.ready(project),
            pure2::<LK, LV, JK, FL>(*left_join_key),
            project.lawful(),
        ensures
            self.left_processed(&diffs, &result, left_join_key, project),
    {
        let JoinShard { half, right } = self;
        let mut half = half;
        let ghost before = half;
        let ghost jk = total_key::<LK, LV, JK, FL>(*left_join_key);
        let batch = MapDiff::Batch { changes: diffs };
        let changes = half.apply_left(&right, &batch, left_join_key, project, pool);
        proof {
            assert(batch.steps() == steps_of(diffs@));
            let keys = choose|keys: Seq<LK::Model>|
                #![trigger delta(before.output(), keys, half.output())]
                before.left().keys_run(batch.steps(), jk, Seq::empty(), keys) && steps_of(changes@)
                    == delta(before.output(), keys, half.output());
            before.left().keys_run_effect(batch.steps(), jk, Seq::empty(), keys);
            delta_tells(before.output(), keys, half.output());
            delta_replays(before.output(), keys, half.output());
            right.side_wf();
        }
        (JoinShard { half, right }, changes)
    }

    /// Follows right changes as one event, and tells how the output changes.
    pub fn process_right<FR: RightJoinKey<RK, RV, JK>, P: StageProject<LK, LV, RK, RV, OV>>(
        self,
        diffs: Vec<MapDiff<RK, RV>>,
        right_join_key: &FR,
        project: &P,
        pool: Option<&WorkerPool>,
    ) -> (result: (Self, Vec<MapDiff<LK, OV>>))
        requires
            self.ready(project),
            right_join_key.lawful(),
            project.lawful(),
        ensures
            self.right_processed(&diffs, &result, right_join_key, project),
    {
        let JoinShard { half, right } = self;
        let mut half = half;
        let mut right = right;
        let ghost before = half;
        let ghost jk = right_key::<RK, RV, JK, FR>(*right_join_key);
        let batch = MapDiff::Batch { changes: diffs };
        let changes = half.apply_right(&mut right, &batch, right_join_key, project, pool);
        proof {
            assert(batch.steps() == steps_of(diffs@));
            let joins = choose|joins: Seq<JK::Model>|
                #![trigger before.left().extend_members(joins, Seq::empty())]
                self.right().joins_run(batch.steps(), jk, Seq::empty(), joins) && steps_of(changes@)
                    == delta(
                    before.output(),
                    before.left().extend_members(joins, Seq::empty()),
                    half.output(),
                );
            let keys = before.left().extend_members(joins, Seq::empty());
            before.left().extend_members_effect(joins, Seq::empty());
            delta_tells(before.output(), keys, half.output());
            delta_replays(before.output(), keys, half.output());
            right.side_wf();
        }
        (JoinShard { half, right }, changes)
    }
}

/// The number of diffs that shards get in all.
pub open spec fn routed_work<D>(routed: Seq<Vec<D>>) -> nat
    decreases routed.len(),
{
    if routed.len() == 0 {
        0
    } else {
        routed_work(routed.drop_last()) + routed.last()@.len()
    }
}

fn total_work<D>(routed: &Vec<Vec<D>>) -> (work: usize)
    ensures
        work == saturated(routed_work(routed@)),
{
    let mut work: usize = 0;
    let mut i: usize = 0;
    assert(routed@.take(0) =~= Seq::empty());
    while i < routed.len()
        invariant
            i <= routed@.len(),
            work == saturated(routed_work(routed@.take(i as int))),
        decreases routed@.len() - i,
    {
        proof {
            assert(routed@.take(i + 1).drop_last() =~= routed@.take(i as int));
        }
        work = work.saturating_add(routed[i].len());
        i += 1;
    }
    assert(routed@.take(i as int) =~= routed@);
    work
}

/// Hands each shard its diffs, on the worker pool where there is enough work for it.
fn process_join_shards<State: Send, Diff: Send, Out: Send, F: Fn(State, Vec<Diff>) -> (State, Out) + Sync>(
    shards: Vec<State>,
    routed: Vec<Vec<Diff>>,
    process: &F,
    pool: Option<&WorkerPool>,
) -> (results: Vec<(State, Out)>)
    requires
        shards@.len() == routed@.len(),
        forall|s: int|
            0 <= s < shards@.len() ==> #[trigger] call_requires(*process, (shards@[s], routed@[s])),
    ensures
        results@.len() == shards@.len(),
        forall|s: int|
            0 <= s < shards@.len() ==> call_ensures(
                *process,
                (shards@[s], routed@[s]),
                #[trigger] results@[s],
            ),
{
    let work = total_work(&routed);
    if work >= PARALLEL_SHARD_WORK && shards.len() > 1 {
        if let Some(pool) = pool {
            return par_zip_map(&pool.pool, shards, routed, process);
        }
    }
    zip_map(shards, routed, process)
}

/// A join whose rows are divided among shards by join key.
#[verifier::reject_recursive_types(LK)]
#[verifier::reject_recursive_types(LV)]
#[verifier::reject_recursive_types(RK)]
#[verifier::reject_recursive_types(RV)]
#[verifier::reject_recursive_types(JK)]
#[verifier::reject_recursive_types(OV)]
pub struct ShardedKeyedJoin<
    LK: MapKey,
    LV: CellValue,
    RK: MapKey,
    RV: CellValue,
    JK: MapKey,
    OV: CellValue,
> {
    shards: Vec<JoinShard<LK, LV, RK, RV, JK, OV>>,
    routes: Routes<LK, RK>,
    left_rows: Ghost<Side<LK::Model, LV::Model, JK::Model>>,
    right_rows: Ghost<Side<RK::Model, RV::Model, JK::Model>>,
}

impl<
    LK: MapKey,
    LV: CellValue,
    RK: MapKey,
    RV: CellValue,
    JK: MapKey,
    OV: CellValue,
> ShardedKeyedJoin<LK, LV, RK, RV, JK, OV> {
    pub closed spec fn shards(&self) -> Seq<JoinShard<LK, LV, RK, RV, JK, OV>> {
        self.shards@
    }

    pub closed spec fn routes(&self) -> Routes<LK, RK> {
        self.routes
    }

    /// The left rows that one join would hold after the same diffs.
    pub closed spec fn left(&self) -> Side<LK::Model, LV::Model, JK::Model> {
        self.left_rows@
    }

    /// The right rows that one join would hold after the same diffs.
    pub closed spec fn right(&self) -> Side<RK::Model, RV::Model, JK::Model> {
        self.right_rows@
    }

    /// The output that one join would hold after the same diffs.
    pub open spec fn output(
        &self,
        project: spec_fn(LK::Model, LV::Model, Seq<(RK::Model, RV::Model)>) -> Option<OV::Model>,
    ) -> Map<LK::Model, OV::Model> {
        joined(self.left(), self.right(), project)
    }

    /// The output of each shard is the join of its rows.
    pub open spec fn wf(
        &self,
        project: spec_fn(LK::Model, LV::Model, Seq<(RK::Model, RV::Model)>) -> Option<OV::Model>,
    ) -> bool {
        &&& self.routes().wf()
        &&& self.shards().len() == self.routes().count()
        &&& forall|s: int| 0 <= s < self.shards().len() ==> (#[trigger] self.shards()[s]).wf(project)
    }

    /// Each shard holds the rows that one join would hold, as far as it is responsible for them.
    pub open spec fn sound(&self) -> bool {
        let route = shard_route::<JK>(self.routes().start(), self.routes().count());
        &&& self.left().wf()
        &&& self.right().wf()
        &&& forall|s: int|
            0 <= s < self.shards().len() ==> (#[trigger] self.shards()[s]).left() == part(
                self.left(),
                route,
                s,
            ) && self.shards()[s].right() == part(self.right(), route, s)
        &&& routes_agree(self.routes().left_routes(), self.left(), route)
        &&& routes_agree(self.routes().right_routes(), self.right(), route)
    }

    pub fn new(shard_count: usize) -> (join: Self)
        ensures
            forall|project: spec_fn(LK::Model, LV::Model, Seq<(RK::Model, RV::Model)>) -> Option<OV::Model>|
                #[trigger] join.wf(project),
            join.sound(),
            join.routes().count() == if shard_count == 0 {
                1
            } else {
                shard_count
            },
            join.routes().start().state == 0,
            join.left() == empty_side::<LK::Model, LV::Model, JK::Model>(),
            join.right() == empty_side::<RK::Model, RV::Model, JK::Model>(),
    {
        let count: usize = if shard_count == 0 {
            1
        } else {
            shard_count
        };
        let mut shards: Vec<JoinShard<LK, LV, RK, RV, JK, OV>> = Vec::new();
        let mut i: usize = 0;
        let ghost left = empty_side::<LK::Model, LV::Model, JK::Model>();
        let ghost right = empty_side::<RK::Model, RV::Model, JK::Model>();
        while i < count
            invariant
                i <= count,
                shards@.len() == i,
                left == empty_side::<LK::Model, LV::Model, JK::Model>(),
                right == empty_side::<RK::Model, RV::Model, JK::Model>(),
                forall|s: int|
                    0 <= s < i ==> (#[trigger] shards@[s]).index_wf() && shards@[s].left() == left
                        && shards@[s].right() == right && shards@[s].output()
                        == Map::<LK::Model, OV::Model>::empty(),
            decreases count - i,
        {
            shards.push(JoinShard::new());
            i += 1;
        }
        let join = ShardedKeyedJoin {
            shards,
            routes: Routes::new(shard_count),
            left_rows: Ghost(left),
            right_rows: Ghost(right),
        };
        proof {
            let route = shard_route::<JK>(join.routes().start(), join.routes().count());
            assert forall|s: int| 0 <= s < join.shards().len() implies (#[trigger] join.shards()[s]).left()
                == part(left, route, s) && join.shards()[s].right() == part(right, route, s) by {
                side_ext(part(left, route, s), left);
                side_ext(part(right, route, s), right);
            }
            assert forall|
                project: spec_fn(LK::Model, LV::Model, Seq<(RK::Model, RV::Model)>) -> Option<
                    OV::Model,
                >,
            |
                #[trigger] join.wf(project) by {
                assert forall|s: int| 0 <= s < join.shards().len() implies (
                #[trigger] join.shards()[s]).wf(project) by {
                    assert(joined(left, right, project) =~= Map::<LK::Model, OV::Model>::empty());
                }
            }
        }
        join
    }

    /// What following left changes does: they are routed to the shards of their rows, each shard
    /// follows its own, and what the shards tell is put into the order of the rows in the event.
    pub open spec fn followed_left<FL: RowFn<LK, LV, JK>>(
        &self,
        after: Self,
        steps: Seq<Change<LK::Model, LV::Model>>,
        left_join_key: FL,
        told: Seq<Change<LK::Model, OV::Model>>,
    ) -> bool {
        let routing = self.routes().left::<LV::Model>().run(
            steps,
            left_to::<LK, LV, JK, FL>(left_join_key, self.routes().start(), self.routes().count()),
        );
        &&& after.routes().at(routing, routing.ordinals, routing.routed)
        &&& forall|s: int|
            0 <= s < after.shards().len() ==> (#[trigger] after.shards()[s]).left()
                == self.shards()[s].left().run(
                routing.routed[s],
                total_key::<LK, LV, JK, FL>(left_join_key),
            ) && after.shards()[s].right() == self.shards()[s].right()
        &&& merged_from(
            self.shards(),
            after.shards(),
            merge_place(routing.ordinals, routing.sequence),
            told,
        )
    }

    /// What following right changes does: they are routed to the shards of their rows, each shard
    /// follows its own, and what the shards tell is put into the order in which the left rows came.
    pub open spec fn followed_right<FR: RightJoinKey<RK, RV, JK>>(
        &self,
        after: Self,
        steps: Seq<Change<RK::Model, RV::Model>>,
        right_join_key: FR,
        told: Seq<Change<LK::Model, OV::Model>>,
    ) -> bool {
        let routing = self.routes().right::<RV::Model>().run(
            steps,
            right_to::<RK, RV, JK, FR>(right_join_key, self.routes().start(), self.routes().count()),
        );
        &&& after.routes().right_at(routing, routing.routed)
        &&& forall|s: int|
            0 <= s < after.shards().len() ==> (#[trigger] after.shards()[s]).right()
                == self.shards()[s].right().run(
                routing.routed[s],
                right_key::<RK, RV, JK, FR>(right_join_key),
            ) && after.shards()[s].left() == self.shards()[s].left()
        &&& merged_from(
            self.shards(),
            after.shards(),
            merge_place(Map::empty(), self.routes().sequence()),
            told,
        )
    }

    /// The kept output at a key, in the shard that holds its row.
    pub fn get(&self, key: &LK) -> (value: Option<&OV>)
        requires
            exists|project: spec_fn(LK::Model, LV::Model, Seq<(RK::Model, RV::Model)>) -> Option<OV::Model>|
                #[trigger] self.wf(project),
        ensures
            forall|project: spec_fn(LK::Model, LV::Model, Seq<(RK::Model, RV::Model)>) -> Option<OV::Model>|
                #[trigger] self.wf(project) && self.sound() ==> value is Some == self.output(
                    project,
                ).contains_key(key.model()) && (value is Some ==> value->Some_0.model()
                    == self.output(project)[key.model()]),
    {
        let ghost k = key.model();
        let ghost route = shard_route::<JK>(self.routes().start(), self.routes().count());
        let found: Option<&OV> = match self.routes.left_route(key) {
            Some(route) => self.shards[route].get(key),
            None => None,
        };
        proof {
            assert forall|
                project: spec_fn(LK::Model, LV::Model, Seq<(RK::Model, RV::Model)>) -> Option<
                    OV::Model,
                >,
            |
                #[trigger] self.wf(project) && self.sound() implies found is Some == self.output(
                project,
            ).contains_key(k) && (found is Some ==> found->Some_0.model() == self.output(project)[k]) by {
                joined_lookup(self.left(), self.right(), project, k);
                assert(self.routes().left_routes().contains_key(k) == self.left().rows.contains_key(k));
                if self.routes().left_routes().contains_key(k) {
                    let s = self.routes().left_routes()[k] as int;
                    let _ = self.shards()[s];
                    joined_part(self.left(), self.right(), project, route, s, k);
                    assert(lookup(self.shards()[s].output(), k) == lookup(self.output(project), k));
                }
            }
        }
        found
    }

    /// Follows left changes that are not batches as one event, and tells how the output changes, in
    /// the order of the rows in the event.
    pub fn apply_left_owned<FL: RowFn<LK, LV, JK>, P: StageProject<LK, LV, RK, RV, OV>>(
        &mut self,
        flattened: &Vec<MapDiff<LK, LV>>,
        left_join_key: &FL,
        project: &P,
        pool: Option<&WorkerPool>,
    ) -> (merged: Vec<MapDiff<LK, OV>>)
        requires
            old(self).wf(projection::<LK, LV, RK, RV, OV, P>(*project)),
            pure2::<LK, LV, JK, FL>(*left_join_key),
            project.lawful(),
            flat(flattened@),
        ensures
            final(self).wf(projection::<LK, LV, RK, RV, OV, P>(*project)),
            final(self).routes().count() == old(self).routes().count(),
            final(self).routes().start() == old(self).routes().start(),
            final(self).routes().right_routes() == old(self).routes().right_routes(),
            final(self).left() == old(self).left().run(
                steps_of(flattened@),
                total_key::<LK, LV, JK, FL>(*left_join_key),
            ),
            final(self).right() == old(self).right(),
            flat(merged@),
            old(self).followed_left(
                *final(self),
                steps_of(flattened@),
                *left_join_key,
                steps_of(merged@),
            ),
            old(self).sound() && old(self).left().admits_all(
                steps_of(flattened@),
                total_key::<LK, LV, JK, FL>(*left_join_key),
            ) ==> final(self).sound() && fits_all(
                old(self).output(projection::<LK, LV, RK, RV, OV, P>(*project)),
                steps_of(merged@),
            ) && replay(
                old(self).output(projection::<LK, LV, RK, RV, OV, P>(*project)),
                steps_of(merged@),
            ) == final(self).output(projection::<LK, LV, RK, RV, OV, P>(*project)),
    {
        let ghost steps = steps_of(flattened@);
        let ghost jk = total_key::<LK, LV, JK, FL>(*left_join_key);
        let ghost p = projection::<LK, LV, RK, RV, OV, P>(*project);
        let ghost before = *self;
        let ghost count = self.routes.count();
        let ghost start = self.routes.start();
        let ghost to = left_to::<LK, LV, JK, FL>(*left_join_key, start, count);
        let ghost routing = self.routes.left::<LV::Model>().run(steps, to);
        let (routed, ordinals) = self.routes.route_left_owned(flattened, left_join_key);
        let mut shards: Vec<JoinShard<LK, LV, RK, RV, JK, OV>> = Vec::new();
        shards.append(&mut self.shards);
        assert(shards@ =~= before.shards());
        let process = |shard: JoinShard<LK, LV, RK, RV, JK, OV>, diffs: Vec<MapDiff<LK, LV>>| -> (r: (
            JoinShard<LK, LV, RK, RV, JK, OV>,
            Vec<MapDiff<LK, OV>>,
        ))
            requires
                shard.ready(project),
            ensures
                shard.left_processed(&diffs, &r, left_join_key, project),
            { shard.process_left(diffs, left_join_key, project, pool) };
        let ghost sent = routed@;
        let results = process_join_shards(shards, routed, &process, pool);
        let (shards, changes) = unzip(results);
        self.shards = shards;
        self.left_rows = Ghost(before.left().run(steps, jk));
        let merged = self.routes.merge_changes(&changes, &ordinals);
        proof {
            let told = routed_steps(changes@);
            assert forall|s: int| 0 <= s < self.shards().len() implies (#[trigger] self.shards()[s]).wf(
                p,
            ) && self.shards()[s].left() == before.shards()[s].left().run(routing.routed[s], jk)
                && self.shards()[s].right() == before.shards()[s].right() && tells(
                before.shards()[s].output(),
                self.shards()[s].output(),
                told[s],
            ) && flat(changes@[s]@) by {
                assert(results@[s].0 == self.shards()[s]);
                assert(routing.routed[s] == routed_steps(sent)[s]);
            }
            assert(merged_from(
                before.shards(),
                self.shards(),
                merge_place(routing.ordinals, routing.sequence),
                steps_of(merged@),
            )) by {
                assert(tells_all(before.shards(), self.shards(), told));
            }
            if before.sound() && before.left().admits_all(steps, jk) {
                let route = shard_route::<JK>(start, count);
                before.routes.ranges();
                assert(left_shards(to, jk, route, count as nat)) by {
                    shard_in_range_all::<JK>(start, count);
                }
                follow_left(
                    before.left(),
                    before.routes.left::<LV::Model>(),
                    steps,
                    to,
                    jk,
                    route,
                    count as nat,
                );
                before.left().run_effect(steps, jk);
                assert forall|s: int| 0 <= s < self.shards().len() implies (#[trigger] self.shards()[s]).left()
                    == part(self.left(), route, s) && self.shards()[s].right() == part(
                    self.right(),
                    route,
                    s,
                ) by {
                    let _ = before.shards()[s];
                    let _ = routing.routed[s];
                }
                sharded_output(before, *self, told, p, merge_place(routing.ordinals, routing.sequence), steps_of(merged@));
            }
        }
        merged
    }

    /// Follows a left diff as one event, and tells how the output changes, in the order of the rows
    /// in the event.
    pub fn apply_left<FL: RowFn<LK, LV, JK>, P: StageProject<LK, LV, RK, RV, OV>>(
        &mut self,
        diff: &MapDiff<LK, LV>,
        left_join_key: &FL,
        project: &P,
        pool: Option<&WorkerPool>,
    ) -> (merged: Vec<MapDiff<LK, OV>>)
        requires
            old(self).wf(projection::<LK, LV, RK, RV, OV, P>(*project)),
            pure2::<LK, LV, JK, FL>(*left_join_key),
            project.lawful(),
        ensures
            final(self).wf(projection::<LK, LV, RK, RV, OV, P>(*project)),
            final(self).routes().count() == old(self).routes().count(),
            final(self).routes().start() == old(self).routes().start(),
            final(self).routes().right_routes() == old(self).routes().right_routes(),
            final(self).left() == old(self).left().run(
                diff.steps(),
                total_key::<LK, LV, JK, FL>(*left_join_key),
            ),
            final(self).right() == old(self).right(),
            flat(merged@),
            old(self).followed_left(
                *final(self),
                diff.steps(),
                *left_join_key,
                steps_of(merged@),
            ),
            old(self).sound() && old(self).left().admits_all(
                diff.steps(),
                total_key::<LK, LV, JK, FL>(*left_join_key),
            ) ==> final(self).sound() && fits_all(
                old(self).output(projection::<LK, LV, RK, RV, OV, P>(*project)),
                steps_of(merged@),
            ) && replay(
                old(self).output(projection::<LK, LV, RK, RV, OV, P>(*project)),
                steps_of(merged@),
            ) == final(self).output(projection::<LK, LV, RK, RV, OV, P>(*project)),
    {
        let mut flattened: Vec<MapDiff<LK, LV>> = Vec::new();
        diff.flatten_into(&mut flattened);
        proof {
            appends_steps(Seq::empty(), flattened@, diff.steps());
            assert(steps_of(flattened@) =~= diff.steps());
        }
        self.apply_left_owned(&flattened, left_join_key, project, pool)
    }

    /// Follows a right diff as one event, and tells how the output changes, in the order in which
    /// the left rows came.
    pub fn apply_right<FR: RightJoinKey<RK, RV, JK>, P: StageProject<LK, LV, RK, RV, OV>>(
        &mut self,
        diff: &MapDiff<RK, RV>,
        right_join_key: &FR,
        project: &P,
        pool: Option<&WorkerPool>,
    ) -> (merged: Vec<MapDiff<LK, OV>>)
        requires
            old(self).wf(projection::<LK, LV, RK, RV, OV, P>(*project)),
            right_join_key.lawful(),
            project.lawful(),
        ensures
            final(self).wf(projection::<LK, LV, RK, RV, OV, P>(*project)),
            final(self).routes().count() == old(self).routes().count(),
            final(self).routes().start() == old(self).routes().start(),
            final(self).routes().left_routes() == old(self).routes().left_routes(),
            final(self).routes().sequence() == old(self).routes().sequence(),
            final(self).left() == old(self).left(),
            final(self).right() == old(self).right().run(
                diff.steps(),
                right_key::<RK, RV, JK, FR>(*right_join_key),
            ),
            flat(merged@),
            old(self).followed_right(
                *final(self),
                diff.steps(),
                *right_join_key,
                steps_of(merged@),
            ),
            old(self).sound() && old(self).right().admits_all(
                diff.steps(),
                right_key::<RK, RV, JK, FR>(*right_join_key),
            ) ==> final(self).sound() && fits_all(
                old(self).output(projection::<LK, LV, RK, RV, OV, P>(*project)),
                steps_of(merged@),
            ) && replay(
                old(self).output(projection::<LK, LV, RK, RV, OV, P>(*project)),
                steps_of(merged@),
            ) == final(self).output(projection::<LK, LV, RK, RV, OV, P>(*project)),
    {
        let ghost steps = diff.steps();
        let ghost jk = right_key::<RK, RV, JK, FR>(*right_join_key);
        let ghost p = projection::<LK, LV, RK, RV, OV, P>(*project);
        let ghost before = *self;
        let ghost count = self.routes.count();
        let ghost start = self.routes.start();
        let ghost to = right_to::<RK, RV, JK, FR>(*right_join_key, start, count);
        let ghost routing = self.routes.right::<RV::Model>().run(steps, to);
        let routed = self.routes.route_right(diff, right_join_key);
        let mut shards: Vec<JoinShard<LK, LV, RK, RV, JK, OV>> = Vec::new();
        shards.append(&mut self.shards);
        assert(shards@ =~= before.shards());
        let process = |shard: JoinShard<LK, LV, RK, RV, JK, OV>, diffs: Vec<MapDiff<RK, RV>>| -> (r: (
            JoinShard<LK, LV, RK, RV, JK, OV>,
            Vec<MapDiff<LK, OV>>,
        ))
            requires
                shard.ready(project),
            ensures
                shard.right_processed(&diffs, &r, right_join_key, project),
            { shard.process_right(diffs, right_join_key, project, pool) };
        let ghost sent = routed@;
        let results = process_join_shards(shards, routed, &process, pool);
        let (shards, changes) = unzip(results);
        self.shards = shards;
        self.right_rows = Ghost(before.right().run(steps, jk));
        let none: FxMap<LK, u64> = FxMap::new();
        let merged = self.routes.merge_changes(&changes, &none);
        proof {
            let told = routed_steps(changes@);
            let place = merge_place(Map::empty(), before.routes.sequence());
            assert forall|s: int| 0 <= s < self.shards().len() implies (#[trigger] self.shards()[s]).wf(
                p,
            ) && self.shards()[s].right() == before.shards()[s].right().run(routing.routed[s], jk)
                && self.shards()[s].left() == before.shards()[s].left() && tells(
                before.shards()[s].output(),
                self.shards()[s].output(),
                told[s],
            ) && flat(changes@[s]@) by {
                assert(results@[s].0 == self.shards()[s]);
                assert(routing.routed[s] == routed_steps(sent)[s]);
            }
            assert(merged_from(before.shards(), self.shards(), place, steps_of(merged@))) by {
                assert(tells_all(before.shards(), self.shards(), told));
            }
            if before.sound() && before.right().admits_all(steps, jk) {
                let route = shard_route::<JK>(start, count);
                before.routes.ranges();
                assert(right_shards(to, jk, route, count as nat)) by {
                    shard_in_range_all::<JK>(start, count);
                }
                follow_right(
                    before.right(),
                    before.routes.right::<RV::Model>(),
                    steps,
                    to,
                    jk,
                    route,
                    count as nat,
                );
                before.right().run_effect(steps, jk);
                assert forall|s: int| 0 <= s < self.shards().len() implies (#[trigger] self.shards()[s]).left()
                    == part(self.left(), route, s) && self.shards()[s].right() == part(
                    self.right(),
                    route,
                    s,
                ) by {
                    let _ = before.shards()[s];
                    let _ = routing.routed[s];
                }
                sharded_output(before, *self, told, p, place, steps_of(merged@));
            }
        }
        merged
    }
}

/// The changes of each shard take its output to its new output.
pub open spec fn tells_all<
    LK: MapKey,
    LV: CellValue,
    RK: MapKey,
    RV: CellValue,
    JK: MapKey,
    OV: CellValue,
>(
    before: Seq<JoinShard<LK, LV, RK, RV, JK, OV>>,
    after: Seq<JoinShard<LK, LV, RK, RV, JK, OV>>,
    changes: Seq<Seq<Change<LK::Model, OV::Model>>>,
) -> bool {
    &&& changes.len() == before.len()
    &&& changes.len() == after.len()
    &&& forall|s: int|
        0 <= s < changes.len() ==> tells(before[s].output(), after[s].output(), #[trigger] changes[s])
}

/// The merged changes are those that take the output of each shard to its new output, in the order
/// of their ranks.
pub open spec fn merged_from<
    LK: MapKey,
    LV: CellValue,
    RK: MapKey,
    RV: CellValue,
    JK: MapKey,
    OV: CellValue,
>(
    before: Seq<JoinShard<LK, LV, RK, RV, JK, OV>>,
    after: Seq<JoinShard<LK, LV, RK, RV, JK, OV>>,
    place: spec_fn(LK::Model) -> u64,
    merged: Seq<Change<LK::Model, OV::Model>>,
) -> bool {
    exists|changes: Seq<Seq<Change<LK::Model, OV::Model>>>| #[trigger]
        tells_all(before, after, changes) && merges(changes, place, merged)
}

proof fn shard_in_range_all<JK: MapKey>(start: FxSum, count: usize)
    requires
        count >= 1,
    ensures
        forall|j: JK::Model|
            0 <= #[trigger] shard_of(fx_code::<JK>(start, j), count) < count && shard_of(
                fx_code::<JK>(start, j),
                count,
            ) as usize as int == shard_of(fx_code::<JK>(start, j), count),
{
}

/// The first and the second parts of pairs, in order.
pub(crate) fn unzip<A, B>(results: Vec<(A, B)>) -> (pair: (Vec<A>, Vec<B>))
    ensures
        pair.0@.len() == results@.len(),
        pair.1@.len() == results@.len(),
        forall|i: int| 0 <= i < results@.len() ==> #[trigger] pair.0@[i] == results@[i].0,
        forall|i: int| 0 <= i < results@.len() ==> #[trigger] pair.1@[i] == results@[i].1,
{
    let mut first: Vec<A> = Vec::new();
    let mut second: Vec<B> = Vec::new();
    let mut rest = results;
    let ghost all = results@;
    while rest.len() > 0
        invariant
            first@.len() == second@.len(),
            first@.len() + rest@.len() == all.len(),
            rest@ == all.skip(first@.len() as int),
            forall|i: int| 0 <= i < first@.len() ==> #[trigger] first@[i] == all[i].0,
            forall|i: int| 0 <= i < first@.len() ==> #[trigger] second@[i] == all[i].1,
        decreases rest@.len(),
    {
        let ghost n = first@.len() as int;
        let (a, b) = rest.remove(0);
        proof {
            assert((a, b) == all[n]);
            assert(rest@ =~= all.skip(n + 1));
        }
        first.push(a);
        second.push(b);
    }
    (first, second)
}

/// The merged changes of sound shards take the output to the new output.
proof fn sharded_output<
    LK: MapKey,
    LV: CellValue,
    RK: MapKey,
    RV: CellValue,
    JK: MapKey,
    OV: CellValue,
>(
    before: ShardedKeyedJoin<LK, LV, RK, RV, JK, OV>,
    after: ShardedKeyedJoin<LK, LV, RK, RV, JK, OV>,
    changes: Seq<Seq<Change<LK::Model, OV::Model>>>,
    project: spec_fn(LK::Model, LV::Model, Seq<(RK::Model, RV::Model)>) -> Option<OV::Model>,
    place: spec_fn(LK::Model) -> u64,
    merged: Seq<Change<LK::Model, OV::Model>>,
)
    requires
        before.wf(project),
        after.wf(project),
        before.sound(),
        after.sound(),
        before.routes().count() == after.routes().count(),
        before.routes().start() == after.routes().start(),
        before.routes().count() >= 1,
        tells_all(before.shards(), after.shards(), changes),
        merges(changes, place, merged),
    ensures
        fits_all(before.output(project), merged),
        replay(before.output(project), merged) == after.output(project),
{
    let count = before.routes().count();
    let start = before.routes().start();
    let route = shard_route::<JK>(start, count);
    shard_in_range_all::<JK>(start, count);
    let shard_before = before.shards().map_values(
        |s: JoinShard<LK, LV, RK, RV, JK, OV>| s.output(),
    );
    let shard_after = after.shards().map_values(
        |s: JoinShard<LK, LV, RK, RV, JK, OV>| s.output(),
    );
    let pre = |k: LK::Model|
        if before.left().rows.contains_key(k) {
            route(before.left().keys[k])
        } else {
            0
        };
    let post = |k: LK::Model|
        if after.left().rows.contains_key(k) {
            route(after.left().keys[k])
        } else {
            0
        };
    assert forall|s: int, k: LK::Model| 0 <= s < changes.len() implies #[trigger] lookup(
        shard_before[s],
        k,
    ) == if s == pre(k) {
        lookup(before.output(project), k)
    } else {
        None
    } by {
        let _ = before.shards()[s];
        joined_part(before.left(), before.right(), project, route, s, k);
        joined_lookup(before.left(), before.right(), project, k);
    }
    assert forall|s: int, k: LK::Model| 0 <= s < changes.len() implies #[trigger] lookup(
        shard_after[s],
        k,
    ) == if s == post(k) {
        lookup(after.output(project), k)
    } else {
        None
    } by {
        let _ = after.shards()[s];
        joined_part(after.left(), after.right(), project, route, s, k);
        joined_lookup(after.left(), after.right(), project, k);
    }
    merged_replays(
        before.output(project),
        after.output(project),
        shard_before,
        shard_after,
        changes,
        place,
        merged,
        pre,
        post,
    );
}

} // verus!
