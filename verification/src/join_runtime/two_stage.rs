//! Two joins, one on top of the other, that work as one.
use vstd::prelude::*;

use crate::delta::{delta, delta_replays, put_all};
use crate::diff::{fits_all, flat, replay, saturated, steps_of, work_of, Change, MapDiff};
use crate::foreign_key::{right_key, RightJoinKey};
use crate::func::{image2, pure2, RowFn};
use crate::fx::lookup;
use crate::index::{empty_side, matches_source, total_key, Side};
use crate::join_lifecycle::{BatchedChanges, RootRegistrationOrder, RuntimeStorage};
use crate::join_region::declaration::{projection, StageProject};
use crate::join_runtime::sharded::{pool_shards, query_shard_count};
use crate::join_runtime::sharded_join::ShardedKeyedJoin;
use crate::join_runtime::state::{delta_through, joined, joined_lookup, KeyedJoin, RelationIndex};
use crate::parallel::WorkerPool;
use crate::value::{CellValue, MapKey};

verus! {

/// The work from which two joins are divided among shards.
pub const PROMOTION_WORK: usize = 8_192;

/// The functions of two joins.
pub struct TwoStageConfig<FL1, FR1, P1, FL2, FR2, P2> {
    pub left_key1: FL1,
    pub right_key1: FR1,
    pub project1: P1,
    pub left_key2: FL2,
    pub right_key2: FR2,
    pub project2: P2,
}

/// One join with all its rows.
#[verifier::reject_recursive_types(LK)]
#[verifier::reject_recursive_types(LV)]
#[verifier::reject_recursive_types(RK)]
#[verifier::reject_recursive_types(RV)]
#[verifier::reject_recursive_types(JK)]
#[verifier::reject_recursive_types(OV)]
pub struct SerialJoin<
    LK: MapKey,
    LV: CellValue,
    RK: MapKey,
    RV: CellValue,
    JK: MapKey,
    OV: CellValue,
> {
    pub half: KeyedJoin<LK, LV, JK, OV>,
    pub right: RelationIndex<RK, RV, JK>,
}

impl<
    LK: MapKey,
    LV: CellValue,
    RK: MapKey,
    RV: CellValue,
    JK: MapKey,
    OV: CellValue,
> SerialJoin<LK, LV, RK, RV, JK, OV> {
    /// The output is the join of the rows, and each row has the join key that the functions give.
    pub open spec fn sound(
        &self,
        left_key: spec_fn(LK::Model, LV::Model) -> Option<JK::Model>,
        right_key: spec_fn(RK::Model, RV::Model) -> Option<JK::Model>,
        project: spec_fn(LK::Model, LV::Model, Seq<(RK::Model, RV::Model)>) -> Option<OV::Model>,
    ) -> bool {
        &&& self.right.wf()
        &&& self.half.joins(self.right@, project)
        &&& self.half.left().keyed_by(left_key)
        &&& self.right@.keyed_by(right_key)
    }

    pub fn new() -> (join: Self)
        ensures
            join.right.wf(),
            join.half.left() == empty_side::<LK::Model, LV::Model, JK::Model>(),
            join.right@ == empty_side::<RK::Model, RV::Model, JK::Model>(),
            join.half.output() == Map::<LK::Model, OV::Model>::empty(),
            forall|
                left_key: spec_fn(LK::Model, LV::Model) -> Option<JK::Model>,
                right_key: spec_fn(RK::Model, RV::Model) -> Option<JK::Model>,
                project: spec_fn(LK::Model, LV::Model, Seq<(RK::Model, RV::Model)>) -> Option<OV::Model>,
            |
                #[trigger] join.sound(left_key, right_key, project),
    {
        let join = SerialJoin { half: KeyedJoin::new(), right: RelationIndex::new() };
        proof {
            assert forall|
                left_key: spec_fn(LK::Model, LV::Model) -> Option<JK::Model>,
                right_key: spec_fn(RK::Model, RV::Model) -> Option<JK::Model>,
                project: spec_fn(LK::Model, LV::Model, Seq<(RK::Model, RV::Model)>) -> Option<OV::Model>,
            |
                #[trigger] join.sound(left_key, right_key, project) by {
                assert(joined(join.half.left(), join.right@, project) =~= Map::empty());
            }
        }
        join
    }

    /// Divides the rows among shards.
    pub fn to_shards<
        FL: RowFn<LK, LV, JK>,
        FR: RightJoinKey<RK, RV, JK>,
        P: StageProject<LK, LV, RK, RV, OV>,
    >(
        &self,
        shard_count: usize,
        left_join_key: &FL,
        right_join_key: &FR,
        project: &P,
        pool: Option<&WorkerPool>,
    ) -> (join: ShardedKeyedJoin<LK, LV, RK, RV, JK, OV>)
        requires
            pure2::<LK, LV, JK, FL>(*left_join_key),
            right_join_key.lawful(),
            project.lawful(),
            self.sound(
                total_key::<LK, LV, JK, FL>(*left_join_key),
                right_key::<RK, RV, JK, FR>(*right_join_key),
                projection::<LK, LV, RK, RV, OV, P>(*project),
            ),
        ensures
            join.wf(projection::<LK, LV, RK, RV, OV, P>(*project)),
            join.sound(),
            join.routes().start().state == 0,
            join.left() == self.half.left(),
            join.right() == self.right@,
            join.output(projection::<LK, LV, RK, RV, OV, P>(*project)) == self.half.output(),
    {
        let ghost lk = total_key::<LK, LV, JK, FL>(*left_join_key);
        let ghost rk = right_key::<RK, RV, JK, FR>(*right_join_key);
        let ghost p = projection::<LK, LV, RK, RV, OV, P>(*project);
        let mut join: ShardedKeyedJoin<LK, LV, RK, RV, JK, OV> = ShardedKeyedJoin::new(shard_count);
        let left_rows = self.half.left_entries(Ghost(lk));
        let left_diff = MapDiff::Initial { entries: left_rows };
        proof {
            assert(join.wf(p));
            self.right.side_wf();
            one_step(join.left(), left_diff.steps(), lk);
        }
        let _ = join.apply_left(&left_diff, left_join_key, project, pool);
        let right_rows = self.right.entries(Ghost(rk));
        let right_diff = MapDiff::Initial { entries: right_rows };
        proof {
            one_step(join.right(), right_diff.steps(), rk);
        }
        let _ = join.apply_right(&right_diff, right_join_key, project, pool);
        join
    }
}

/// A side after one change.
proof fn one_step<K, V, J>(
    side: Side<K, V, J>,
    steps: Seq<Change<K, V>>,
    jk: spec_fn(K, V) -> Option<J>,
)
    requires
        steps.len() == 1,
    ensures
        side.run(steps, jk) == side.step(steps[0], jk),
        side.admits(steps[0]) ==> side.admits_all(steps, jk),
{
    assert(steps.drop_last() =~= Seq::empty());
    assert(side.run(steps.drop_last(), jk) == side);
    assert(side.admits_all(steps.drop_last(), jk));
}

/// Two joins with all their rows, the second on the output of the first.
#[verifier::reject_recursive_types(LK)]
#[verifier::reject_recursive_types(LV)]
#[verifier::reject_recursive_types(RK1)]
#[verifier::reject_recursive_types(RV1)]
#[verifier::reject_recursive_types(JK1)]
#[verifier::reject_recursive_types(MV)]
#[verifier::reject_recursive_types(RK2)]
#[verifier::reject_recursive_types(RV2)]
#[verifier::reject_recursive_types(JK2)]
#[verifier::reject_recursive_types(OV)]
pub struct TwoKeyedSerial<
    LK: MapKey,
    LV: CellValue,
    RK1: MapKey,
    RV1: CellValue,
    JK1: MapKey,
    MV: CellValue,
    RK2: MapKey,
    RV2: CellValue,
    JK2: MapKey,
    OV: CellValue,
> {
    pub first: SerialJoin<LK, LV, RK1, RV1, JK1, MV>,
    pub second: SerialJoin<LK, MV, RK2, RV2, JK2, OV>,
}

/// Two joins whose rows are divided among shards, the second on the output of the first.
#[verifier::reject_recursive_types(LK)]
#[verifier::reject_recursive_types(LV)]
#[verifier::reject_recursive_types(RK1)]
#[verifier::reject_recursive_types(RV1)]
#[verifier::reject_recursive_types(JK1)]
#[verifier::reject_recursive_types(MV)]
#[verifier::reject_recursive_types(RK2)]
#[verifier::reject_recursive_types(RV2)]
#[verifier::reject_recursive_types(JK2)]
#[verifier::reject_recursive_types(OV)]
pub struct TwoKeyedSharded<
    LK: MapKey,
    LV: CellValue,
    RK1: MapKey,
    RV1: CellValue,
    JK1: MapKey,
    MV: CellValue,
    RK2: MapKey,
    RV2: CellValue,
    JK2: MapKey,
    OV: CellValue,
> {
    pub first: ShardedKeyedJoin<LK, LV, RK1, RV1, JK1, MV>,
    pub second: ShardedKeyedJoin<LK, MV, RK2, RV2, JK2, OV>,
}

/// Two joins, the second on the output of the first. They begin as one runtime, and are divided
/// among shards for good by the first event with enough work.
#[verifier::reject_recursive_types(LK)]
#[verifier::reject_recursive_types(LV)]
#[verifier::reject_recursive_types(RK1)]
#[verifier::reject_recursive_types(RV1)]
#[verifier::reject_recursive_types(JK1)]
#[verifier::reject_recursive_types(MV)]
#[verifier::reject_recursive_types(RK2)]
#[verifier::reject_recursive_types(RV2)]
#[verifier::reject_recursive_types(JK2)]
#[verifier::reject_recursive_types(OV)]
pub struct TwoStageKernel<
    LK: MapKey,
    LV: CellValue,
    RK1: MapKey,
    RV1: CellValue,
    JK1: MapKey,
    MV: CellValue,
    RK2: MapKey,
    RV2: CellValue,
    JK2: MapKey,
    OV: CellValue,
    FL1,
    FR1,
    P1,
    FL2,
    FR2,
    P2,
> {
    pub storage: RuntimeStorage<
        TwoKeyedSerial<LK, LV, RK1, RV1, JK1, MV, RK2, RV2, JK2, OV>,
        TwoKeyedSharded<LK, LV, RK1, RV1, JK1, MV, RK2, RV2, JK2, OV>,
    >,
    pub config: TwoStageConfig<FL1, FR1, P1, FL2, FR2, P2>,
    pub shard_count: usize,
}

impl<
    LK: MapKey,
    LV: CellValue,
    RK1: MapKey,
    RV1: CellValue,
    JK1: MapKey,
    MV: CellValue,
    RK2: MapKey,
    RV2: CellValue,
    JK2: MapKey,
    OV: CellValue,
    FL1: RowFn<LK, LV, JK1>,
    FR1: RightJoinKey<RK1, RV1, JK1>,
    P1: StageProject<LK, LV, RK1, RV1, MV>,
    FL2: RowFn<LK, MV, JK2>,
    FR2: RightJoinKey<RK2, RV2, JK2>,
    P2: StageProject<LK, MV, RK2, RV2, OV>,
> TwoStageKernel<LK, LV, RK1, RV1, JK1, MV, RK2, RV2, JK2, OV, FL1, FR1, P1, FL2, FR2, P2> {
    pub open spec fn lkey1(&self) -> spec_fn(LK::Model, LV::Model) -> Option<JK1::Model> {
        total_key::<LK, LV, JK1, FL1>(self.config.left_key1)
    }

    pub open spec fn rkey1(&self) -> spec_fn(RK1::Model, RV1::Model) -> Option<JK1::Model> {
        right_key::<RK1, RV1, JK1, FR1>(self.config.right_key1)
    }

    pub open spec fn proj1(&self) -> spec_fn(
        LK::Model,
        LV::Model,
        Seq<(RK1::Model, RV1::Model)>,
    ) -> Option<MV::Model> {
        projection::<LK, LV, RK1, RV1, MV, P1>(self.config.project1)
    }

    pub open spec fn lkey2(&self) -> spec_fn(LK::Model, MV::Model) -> Option<JK2::Model> {
        total_key::<LK, MV, JK2, FL2>(self.config.left_key2)
    }

    pub open spec fn rkey2(&self) -> spec_fn(RK2::Model, RV2::Model) -> Option<JK2::Model> {
        right_key::<RK2, RV2, JK2, FR2>(self.config.right_key2)
    }

    pub open spec fn proj2(&self) -> spec_fn(
        LK::Model,
        MV::Model,
        Seq<(RK2::Model, RV2::Model)>,
    ) -> Option<OV::Model> {
        projection::<LK, MV, RK2, RV2, OV, P2>(self.config.project2)
    }

    /// The left rows.
    pub open spec fn left1(&self) -> Side<LK::Model, LV::Model, JK1::Model> {
        match self.storage {
            RuntimeStorage::Serial(serial) => serial.first.half.left(),
            RuntimeStorage::Sharded { runtime, .. } => runtime.first.left(),
        }
    }

    /// The right rows of the first join.
    pub open spec fn right1(&self) -> Side<RK1::Model, RV1::Model, JK1::Model> {
        match self.storage {
            RuntimeStorage::Serial(serial) => serial.first.right@,
            RuntimeStorage::Sharded { runtime, .. } => runtime.first.right(),
        }
    }

    /// The rows that the second join has from the first.
    pub open spec fn left2(&self) -> Side<LK::Model, MV::Model, JK2::Model> {
        match self.storage {
            RuntimeStorage::Serial(serial) => serial.second.half.left(),
            RuntimeStorage::Sharded { runtime, .. } => runtime.second.left(),
        }
    }

    /// The right rows of the second join.
    pub open spec fn right2(&self) -> Side<RK2::Model, RV2::Model, JK2::Model> {
        match self.storage {
            RuntimeStorage::Serial(serial) => serial.second.right@,
            RuntimeStorage::Sharded { runtime, .. } => runtime.second.right(),
        }
    }

    /// The output of the first join.
    pub open spec fn middle(&self) -> Map<LK::Model, MV::Model> {
        joined(self.left1(), self.right1(), self.proj1())
    }

    /// The output of the second join.
    pub open spec fn output(&self) -> Map<LK::Model, OV::Model> {
        joined(self.left2(), self.right2(), self.proj2())
    }

    /// The functions can be called.
    pub open spec fn lawful(&self) -> bool {
        &&& pure2::<LK, LV, JK1, FL1>(self.config.left_key1)
        &&& self.config.right_key1.lawful()
        &&& self.config.project1.lawful()
        &&& pure2::<LK, MV, JK2, FL2>(self.config.left_key2)
        &&& self.config.right_key2.lawful()
        &&& self.config.project2.lawful()
    }

    /// What always holds of the storage.
    pub open spec fn wf(&self) -> bool {
        &&& self.lawful()
        &&& match self.storage {
            RuntimeStorage::Serial(serial) => {
                &&& serial.first.sound(self.lkey1(), self.rkey1(), self.proj1())
                &&& serial.second.sound(self.lkey2(), self.rkey2(), self.proj2())
                &&& serial.second.half.left().rows == serial.first.half.output()
            },
            RuntimeStorage::Sharded { runtime, .. } => {
                &&& runtime.first.wf(self.proj1())
                &&& runtime.second.wf(self.proj2())
            },
        }
    }

    /// The second join works on the output of the first, each row has the join key that the functions
    /// give, and shards hold what one runtime would.
    pub open spec fn sound(&self) -> bool {
        &&& self.wf()
        &&& self.left2().rows == self.middle()
        &&& self.left1().keyed_by(self.lkey1())
        &&& self.right1().keyed_by(self.rkey1())
        &&& self.left2().keyed_by(self.lkey2())
        &&& self.right2().keyed_by(self.rkey2())
        &&& match self.storage {
            RuntimeStorage::Serial(serial) => true,
            RuntimeStorage::Sharded { runtime, .. } => runtime.first.sound()
                && runtime.second.sound(),
        }
    }

    /// The shards that an event finds, or that it divides the joins into.
    pub open spec fn divided(
        &self,
        sharded: TwoKeyedSharded<LK, LV, RK1, RV1, JK1, MV, RK2, RV2, JK2, OV>,
    ) -> bool {
        match self.storage {
            RuntimeStorage::Serial(serial) => {
                &&& sharded.first.routes().start().state == 0
                &&& sharded.second.routes().start().state == 0
                &&& sharded.first.sound()
                &&& sharded.first.left() == self.left1()
                &&& sharded.first.right() == self.right1()
                &&& sharded.second.sound()
                &&& sharded.second.left() == self.left2()
                &&& sharded.second.right() == self.right2()
            },
            RuntimeStorage::Sharded { runtime, .. } => sharded == runtime,
        }
    }

    /// What shards tell of left changes: the first join follows them, and the second follows what the
    /// first tells, each in its own order.
    pub open spec fn left_through_shards(
        &self,
        after: Self,
        steps: Seq<Change<LK::Model, LV::Model>>,
        told: Seq<Change<LK::Model, OV::Model>>,
    ) -> bool {
        exists|
            start: TwoKeyedSharded<LK, LV, RK1, RV1, JK1, MV, RK2, RV2, JK2, OV>,
            middle: Seq<Change<LK::Model, MV::Model>>,
        |
            #[trigger] self.divided(start) && #[trigger] start.first.followed_left(
                after.storage->runtime.first,
                steps,
                self.config.left_key1,
                middle,
            ) && start.second.followed_left(
                after.storage->runtime.second,
                middle,
                self.config.left_key2,
                told,
            )
    }

    /// What shards tell of changes of the right rows of the first join: the first join follows them,
    /// and the second follows what the first tells, each in its own order.
    pub open spec fn first_right_through_shards(
        &self,
        after: Self,
        steps: Seq<Change<RK1::Model, RV1::Model>>,
        told: Seq<Change<LK::Model, OV::Model>>,
    ) -> bool {
        exists|
            start: TwoKeyedSharded<LK, LV, RK1, RV1, JK1, MV, RK2, RV2, JK2, OV>,
            middle: Seq<Change<LK::Model, MV::Model>>,
        |
            #[trigger] self.divided(start) && #[trigger] start.first.followed_right(
                after.storage->runtime.first,
                steps,
                self.config.right_key1,
                middle,
            ) && start.second.followed_left(
                after.storage->runtime.second,
                middle,
                self.config.left_key2,
                told,
            )
    }

    /// What shards tell of changes of the right rows of the second join: it follows them, in its own
    /// order.
    pub open spec fn second_right_through_shards(
        &self,
        after: Self,
        steps: Seq<Change<RK2::Model, RV2::Model>>,
        told: Seq<Change<LK::Model, OV::Model>>,
    ) -> bool {
        exists|start: TwoKeyedSharded<LK, LV, RK1, RV1, JK1, MV, RK2, RV2, JK2, OV>|
            #[trigger] self.divided(start) && after.storage->runtime.first == start.first
                && start.second.followed_right(
                after.storage->runtime.second,
                steps,
                self.config.right_key2,
                told,
            )
    }

    /// The storage after an event with this work: divided among shards once there was enough.
    pub open spec fn promotes(&self, work: usize) -> bool {
        self.storage is Sharded || (self.shard_count > 1 && work >= PROMOTION_WORK)
    }

    pub fn new(
        left_key1: FL1,
        right_key1: FR1,
        project1: P1,
        left_key2: FL2,
        right_key2: FR2,
        project2: P2,
        pool: Option<&WorkerPool>,
    ) -> (kernel: Self)
        requires
            pure2::<LK, LV, JK1, FL1>(left_key1),
            right_key1.lawful(),
            project1.lawful(),
            pure2::<LK, MV, JK2, FL2>(left_key2),
            right_key2.lawful(),
            project2.lawful(),
        ensures
            kernel.sound(),
            kernel.storage is Serial,
            kernel.shard_count == pool_shards(pool),
            kernel.config == (TwoStageConfig {
                left_key1,
                right_key1,
                project1,
                left_key2,
                right_key2,
                project2,
            }),
            kernel.left1() == empty_side::<LK::Model, LV::Model, JK1::Model>(),
            kernel.right1() == empty_side::<RK1::Model, RV1::Model, JK1::Model>(),
            kernel.right2() == empty_side::<RK2::Model, RV2::Model, JK2::Model>(),
            kernel.output() == Map::<LK::Model, OV::Model>::empty(),
    {
        let kernel = TwoStageKernel {
            storage: RuntimeStorage::Serial(
                TwoKeyedSerial { first: SerialJoin::new(), second: SerialJoin::new() },
            ),
            config: TwoStageConfig {
                left_key1,
                right_key1,
                project1,
                left_key2,
                right_key2,
                project2,
            },
            shard_count: query_shard_count(pool),
        };
        proof {
            let serial = kernel.storage->Serial_0;
            assert(serial.first.sound(kernel.lkey1(), kernel.rkey1(), kernel.proj1()));
            assert(serial.second.sound(kernel.lkey2(), kernel.rkey2(), kernel.proj2()));
            assert(serial.second.half.left().rows =~= serial.first.half.output());
            assert(kernel.output() =~= Map::<LK::Model, OV::Model>::empty());
        }
        kernel
    }

    /// The output at a key.
    pub fn get(&self, key: &LK) -> (value: Option<&OV>)
        requires
            self.wf(),
        ensures
            self.sound() ==> value is Some == self.output().contains_key(key.model()),
            self.sound() && value is Some ==> value->Some_0.model() == self.output()[key.model()],
    {
        match &self.storage {
            RuntimeStorage::Serial(serial) => serial.second.half.get(key),
            RuntimeStorage::Sharded { runtime, .. } => {
                assert(runtime.second.wf(self.proj2()));
                runtime.second.get(key)
            },
        }
    }

    /// Hands what the first join tells to the second, and gives what the second tells.
    fn propagate_serial(
        serial: &mut TwoKeyedSerial<LK, LV, RK1, RV1, JK1, MV, RK2, RV2, JK2, OV>,
        config: &TwoStageConfig<FL1, FR1, P1, FL2, FR2, P2>,
        middle: Vec<MapDiff<LK, MV>>,
        pool: Option<&WorkerPool>,
        Ghost(before): Ghost<Map<LK::Model, MV::Model>>,
        Ghost(keys): Ghost<Seq<LK::Model>>,
    ) -> (changes: Vec<MapDiff<LK, OV>>)
        requires
            pure2::<LK, MV, JK2, FL2>(config.left_key2),
            config.project2.lawful(),
            old(serial).second.sound(
                total_key::<LK, MV, JK2, FL2>(config.left_key2),
                right_key::<RK2, RV2, JK2, FR2>(config.right_key2),
                projection::<LK, MV, RK2, RV2, OV, P2>(config.project2),
            ),
            old(serial).second.half.left().rows == before,
            keys.no_duplicates(),
            steps_of(middle@) == delta(before, keys, old(serial).first.half.output()),
            put_all(before, keys, old(serial).first.half.output()) == old(serial).first.half.output(),
        ensures
            final(serial).first == old(serial).first,
            final(serial).second.sound(
                total_key::<LK, MV, JK2, FL2>(config.left_key2),
                right_key::<RK2, RV2, JK2, FR2>(config.right_key2),
                projection::<LK, MV, RK2, RV2, OV, P2>(config.project2),
            ),
            final(serial).second.right@ == old(serial).second.right@,
            final(serial).second.half.left().rows == old(serial).first.half.output(),
            flat(changes@),
            steps_of(changes@) == delta(
                old(serial).second.half.output(),
                keys,
                final(serial).second.half.output(),
            ),
            fits_all(old(serial).second.half.output(), steps_of(changes@)),
            replay(old(serial).second.half.output(), steps_of(changes@)) == final(serial).second.half.output(),
    {
        let ghost lk = total_key::<LK, MV, JK2, FL2>(config.left_key2);
        let ghost p = projection::<LK, MV, RK2, RV2, OV, P2>(config.project2);
        let ghost side = serial.second.half.left();
        let ghost out = serial.second.half.output();
        let ghost want = serial.first.half.output();
        let ghost right = serial.second.right@;
        let batch = MapDiff::Batch { changes: middle };
        let changes = serial.second.half.apply_left(
            &serial.second.right,
            &batch,
            &config.left_key2,
            &config.project2,
            pool,
        );
        proof {
            let after = serial.second.half.output();
            assert(batch.steps() == steps_of(middle@));
            side.run_effect(batch.steps(), lk);
            side.run_rows(batch.steps(), lk);
            delta_replays(before, keys, want);
            let touched = choose|touched: Seq<LK::Model>|
                #![trigger delta(out, touched, after)]
                side.keys_run(batch.steps(), lk, Seq::empty(), touched) && steps_of(changes@)
                    == delta(out, touched, after);
            side.keys_run_effect(batch.steps(), lk, Seq::empty(), touched);
            assert forall|k: LK::Model|
                lookup(side.rows, k) == lookup(want, k) implies #[trigger] lookup(out, k) == lookup(
                after,
                k,
            ) by {
                same_middle_same_output(side, right, p, batch.steps(), lk, touched, keys, want, k);
            }
            delta_through(side, keys, want, lk, touched, out, after);
        }
        changes
    }

    /// Sets one left row, and hands what it changes from the first join to the second.
    fn propagate_atomic_left(
        serial: &mut TwoKeyedSerial<LK, LV, RK1, RV1, JK1, MV, RK2, RV2, JK2, OV>,
        config: &TwoStageConfig<FL1, FR1, P1, FL2, FR2, P2>,
        key: &LK,
        value: &LV,
    ) -> (changes: Vec<MapDiff<LK, OV>>)
        requires
            pure2::<LK, LV, JK1, FL1>(config.left_key1),
            config.project1.lawful(),
            pure2::<LK, MV, JK2, FL2>(config.left_key2),
            config.project2.lawful(),
            old(serial).first.sound(
                total_key::<LK, LV, JK1, FL1>(config.left_key1),
                right_key::<RK1, RV1, JK1, FR1>(config.right_key1),
                projection::<LK, LV, RK1, RV1, MV, P1>(config.project1),
            ),
            old(serial).second.sound(
                total_key::<LK, MV, JK2, FL2>(config.left_key2),
                right_key::<RK2, RV2, JK2, FR2>(config.right_key2),
                projection::<LK, MV, RK2, RV2, OV, P2>(config.project2),
            ),
            old(serial).second.half.left().rows == old(serial).first.half.output(),
        ensures
            final(serial).first.sound(
                total_key::<LK, LV, JK1, FL1>(config.left_key1),
                right_key::<RK1, RV1, JK1, FR1>(config.right_key1),
                projection::<LK, LV, RK1, RV1, MV, P1>(config.project1),
            ),
            final(serial).second.sound(
                total_key::<LK, MV, JK2, FL2>(config.left_key2),
                right_key::<RK2, RV2, JK2, FR2>(config.right_key2),
                projection::<LK, MV, RK2, RV2, OV, P2>(config.project2),
            ),
            final(serial).second.half.left().rows == final(serial).first.half.output(),
            final(serial).first.half.left() == old(serial).first.half.left().set(
                key.model(),
                value.model(),
                Some(image2::<LK, LV, JK1, FL1>(config.left_key1, key.model(), value.model())),
            ),
            final(serial).first.right@ == old(serial).first.right@,
            final(serial).second.right@ == old(serial).second.right@,
            flat(changes@),
            steps_of(changes@) == delta(
                old(serial).second.half.output(),
                seq![key.model()],
                final(serial).second.half.output(),
            ),
            fits_all(old(serial).second.half.output(), steps_of(changes@)),
            replay(old(serial).second.half.output(), steps_of(changes@)) == final(serial).second.half.output(),
    {
        let ghost k = key.model();
        let ghost lk1 = total_key::<LK, LV, JK1, FL1>(config.left_key1);
        let ghost side1 = serial.first.half.left();
        let ghost before = serial.first.half.output();
        let ghost change = Change::Insert { key: k, value: value.model() };
        let middle = serial.first.half.apply_row(
            &serial.first.right,
            key,
            value,
            &config.left_key1,
            &config.project1,
        );
        proof {
            side1.set_effect(k, value.model(), lk1(k, value.model()), lk1);
            delta_replays(before, seq![k], serial.first.half.output());
        }
        let ghost keys = seq![k];
        Self::propagate_serial(serial, config, middle, None, Ghost(before), Ghost(keys))
    }

    /// Divides both joins among shards.
    fn build_sharded(
        serial: &TwoKeyedSerial<LK, LV, RK1, RV1, JK1, MV, RK2, RV2, JK2, OV>,
        config: &TwoStageConfig<FL1, FR1, P1, FL2, FR2, P2>,
        shard_count: usize,
        pool: Option<&WorkerPool>,
    ) -> (sharded: TwoKeyedSharded<LK, LV, RK1, RV1, JK1, MV, RK2, RV2, JK2, OV>)
        requires
            pure2::<LK, LV, JK1, FL1>(config.left_key1),
            config.right_key1.lawful(),
            config.project1.lawful(),
            pure2::<LK, MV, JK2, FL2>(config.left_key2),
            config.right_key2.lawful(),
            config.project2.lawful(),
            serial.first.sound(
                total_key::<LK, LV, JK1, FL1>(config.left_key1),
                right_key::<RK1, RV1, JK1, FR1>(config.right_key1),
                projection::<LK, LV, RK1, RV1, MV, P1>(config.project1),
            ),
            serial.second.sound(
                total_key::<LK, MV, JK2, FL2>(config.left_key2),
                right_key::<RK2, RV2, JK2, FR2>(config.right_key2),
                projection::<LK, MV, RK2, RV2, OV, P2>(config.project2),
            ),
        ensures
            sharded.first.wf(projection::<LK, LV, RK1, RV1, MV, P1>(config.project1)),
            sharded.first.sound(),
            sharded.first.routes().start().state == 0,
            sharded.first.left() == serial.first.half.left(),
            sharded.first.right() == serial.first.right@,
            sharded.second.wf(projection::<LK, MV, RK2, RV2, OV, P2>(config.project2)),
            sharded.second.sound(),
            sharded.second.routes().start().state == 0,
            sharded.second.left() == serial.second.half.left(),
            sharded.second.right() == serial.second.right@,
    {
        TwoKeyedSharded {
            first: serial.first.to_shards(
                shard_count,
                &config.left_key1,
                &config.right_key1,
                &config.project1,
                pool,
            ),
            second: serial.second.to_shards(
                shard_count,
                &config.left_key2,
                &config.right_key2,
                &config.project2,
                pool,
            ),
        }
    }

    /// Divides the joins among shards where an event has enough work for it.
    pub fn promote_for(&mut self, work: usize, pool: Option<&WorkerPool>)
        requires
            old(self).wf(),
        ensures
            final(self).wf(),
            final(self).config == old(self).config,
            final(self).shard_count == old(self).shard_count,
            final(self).storage is Sharded == old(self).promotes(work),
            final(self).storage is Sharded ==> old(self).divided(final(self).storage->runtime),
            old(self).storage is Sharded || final(self).storage is Serial ==> final(self).storage
                == old(self).storage,
            final(self).left1() == old(self).left1(),
            final(self).right1() == old(self).right1(),
            final(self).left2() == old(self).left2(),
            final(self).right2() == old(self).right2(),
            old(self).sound() ==> final(self).sound(),
    {
        if self.shard_count > 1 && work >= PROMOTION_WORK {
            let sharded = match &self.storage {
                RuntimeStorage::Serial(serial) => Self::build_sharded(
                    serial,
                    &self.config,
                    self.shard_count,
                    pool,
                ),
                RuntimeStorage::Sharded { .. } => {
                    return;
                },
            };
            self.storage = RuntimeStorage::Sharded { runtime: sharded, parallel_active: false };
        }
    }

    /// Follows a diff of the left rows, and tells how the output changes.
    pub fn apply_left_diff(&mut self, diff: &MapDiff<LK, LV>, pool: Option<&WorkerPool>) -> (changes:
        BatchedChanges<LK, OV>)
        requires
            old(self).wf(),
        ensures
            final(self).wf(),
            final(self).config == old(self).config,
            final(self).shard_count == old(self).shard_count,
            final(self).storage is Sharded == old(self).promotes(saturated(work_of(diff.steps()))),
            final(self).left1() == old(self).left1().run(diff.steps(), old(self).lkey1()),
            final(self).right1() == old(self).right1(),
            final(self).right2() == old(self).right2(),
            flat(changes.0@),
            final(self).storage is Sharded ==> old(self).left_through_shards(
                *final(self),
                diff.steps(),
                steps_of(changes.0@),
            ),
            final(self).storage is Serial ==> final(self).sound() && exists|keys: Seq<LK::Model>|
                #![trigger delta(old(self).output(), keys, final(self).output())]
                old(self).left1().keys_run(diff.steps(), old(self).lkey1(), Seq::empty(), keys)
                    && steps_of(changes.0@) == delta(old(self).output(), keys, final(self).output()),
            final(self).storage is Serial || (old(self).sound() && old(self).left1().admits_all(
                diff.steps(),
                old(self).lkey1(),
            )) ==> final(self).sound() && fits_all(old(self).output(), steps_of(changes.0@))
                && replay(old(self).output(), steps_of(changes.0@)) == final(self).output(),
    {
        self.promote_for(diff.work_items(), pool);
        let ghost start = self.storage->runtime;
        let ghost mut middle_told: Seq<Change<LK::Model, MV::Model>> = Seq::empty();
        let ghost lk1 = self.lkey1();
        let ghost lk2 = self.lkey2();
        let ghost steps = diff.steps();
        let ghost mut used: Seq<LK::Model> = Seq::empty();
        let config = &self.config;
        let changes = match &mut self.storage {
            RuntimeStorage::Serial(serial) => {
                let ghost side1 = serial.first.half.left();
                let ghost out1 = serial.first.half.output();
                let ghost out2 = serial.second.half.output();
                match diff {
                    MapDiff::Insert { key, value } => {
                        let changes = Self::propagate_atomic_left(serial, config, key, value);
                        proof {
                            one_key(side1, steps, lk1, key.model());
                            used = seq![key.model()];
                            assert(steps_of(changes@) == delta(
                                out2,
                                seq![key.model()],
                                serial.second.half.output(),
                            ));
                        }
                        changes
                    },
                    MapDiff::Update { key, new_value, .. } => {
                        let changes = Self::propagate_atomic_left(serial, config, key, new_value);
                        proof {
                            one_key(side1, steps, lk1, key.model());
                            used = seq![key.model()];
                            assert(steps_of(changes@) == delta(
                                out2,
                                seq![key.model()],
                                serial.second.half.output(),
                            ));
                        }
                        changes
                    },
                    _ => {
                        let middle = serial.first.half.apply_left(
                            &serial.first.right,
                            diff,
                            &config.left_key1,
                            &config.project1,
                            None,
                        );
                        let ghost want = serial.first.half.output();
                        let ghost keys = choose|keys: Seq<LK::Model>|
                            #![trigger delta(out1, keys, want)]
                            side1.keys_run(steps, lk1, Seq::empty(), keys) && steps_of(middle@)
                                == delta(out1, keys, want);
                        proof {
                            side1.run_effect(steps, lk1);
                            side1.keys_run_effect(steps, lk1, Seq::empty(), keys);
                            delta_replays(out1, keys, want);
                            used = keys;
                        }
                        let changes = Self::propagate_serial(
                            serial,
                            config,
                            middle,
                            pool,
                            Ghost(out1),
                            Ghost(keys),
                        );
                        assert(steps_of(changes@) == delta(out2, keys, serial.second.half.output()));
                        changes
                    },
                }
            },
            RuntimeStorage::Sharded { runtime, .. } => {
                let ghost first = runtime.first;
                let ghost second = runtime.second;
                let middle = runtime.first.apply_left(
                    diff,
                    &config.left_key1,
                    &config.project1,
                    pool,
                );
                let changes = runtime.second.apply_left_owned(
                    &middle,
                    &config.left_key2,
                    &config.project2,
                    pool,
                );
                proof {
                    second.left().run_rows(steps_of(middle@), lk2);
                    middle_told = steps_of(middle@);
                    if first.sound() && second.sound() && second.left().rows == first.output(
                        self.proj1(),
                    ) && first.left().admits_all(steps, lk1) {
                        first.left().run_effect(steps, lk1);
                        second.left().run_effect(steps_of(middle@), lk2);
                        second.left().fitting_steps_are_admitted(
                            second.left().rows,
                            steps_of(middle@),
                            lk2,
                        );
                    }
                }
                changes
            },
        };
        proof {
            if self.storage is Serial {
                assert(steps_of(changes@) == delta(old(self).output(), used, self.output()));
            }
        }
        proof {
            if self.storage is Sharded {
                assert(old(self).divided(start) && start.first.followed_left(
                    self.storage->runtime.first,
                    steps,
                    self.config.left_key1,
                    middle_told,
                ));
            }
        }
        BatchedChanges(changes)
    }

    /// Follows a diff of the right rows of the first join, and tells how the output changes.
    pub fn apply_first_right_diff(&mut self, diff: &MapDiff<RK1, RV1>, pool: Option<&WorkerPool>) -> (changes:
        BatchedChanges<LK, OV>)
        requires
            old(self).wf(),
        ensures
            final(self).wf(),
            final(self).config == old(self).config,
            final(self).shard_count == old(self).shard_count,
            final(self).storage is Sharded == old(self).promotes(saturated(work_of(diff.steps()))),
            final(self).left1() == old(self).left1(),
            final(self).right1() == old(self).right1().run(diff.steps(), old(self).rkey1()),
            final(self).right2() == old(self).right2(),
            flat(changes.0@),
            final(self).storage is Sharded ==> old(self).first_right_through_shards(
                *final(self),
                diff.steps(),
                steps_of(changes.0@),
            ),
            final(self).storage is Serial ==> final(self).sound() && exists|joins: Seq<JK1::Model>|
                #![trigger old(self).left1().extend_members(joins, Seq::empty())]
                old(self).right1().joins_run(diff.steps(), old(self).rkey1(), Seq::empty(), joins)
                    && steps_of(changes.0@) == delta(
                    old(self).output(),
                    old(self).left1().extend_members(joins, Seq::empty()),
                    final(self).output(),
                ),
            final(self).storage is Serial || (old(self).sound() && old(self).right1().admits_all(
                diff.steps(),
                old(self).rkey1(),
            )) ==> final(self).sound() && fits_all(old(self).output(), steps_of(changes.0@))
                && replay(old(self).output(), steps_of(changes.0@)) == final(self).output(),
    {
        self.promote_for(diff.work_items(), pool);
        let ghost start = self.storage->runtime;
        let ghost mut middle_told: Seq<Change<LK::Model, MV::Model>> = Seq::empty();
        let ghost rk1 = self.rkey1();
        let ghost lk2 = self.lkey2();
        let ghost steps = diff.steps();
        let config = &self.config;
        let changes = match &mut self.storage {
            RuntimeStorage::Serial(serial) => {
                let ghost side1 = serial.first.half.left();
                let ghost right1 = serial.first.right@;
                let ghost out1 = serial.first.half.output();
                let ghost out2 = serial.second.half.output();
                proof {
                    serial.first.right.side_wf();
                }
                let middle = serial.first.half.apply_right(
                    &mut serial.first.right,
                    diff,
                    &config.right_key1,
                    &config.project1,
                    None,
                );
                let ghost want = serial.first.half.output();
                let ghost joins = choose|joins: Seq<JK1::Model>|
                    #![trigger side1.extend_members(joins, Seq::empty())]
                    right1.joins_run(steps, rk1, Seq::empty(), joins) && steps_of(middle@) == delta(
                        out1,
                        side1.extend_members(joins, Seq::empty()),
                        want,
                    );
                let ghost keys = side1.extend_members(joins, Seq::empty());
                proof {
                    right1.run_effect(steps, rk1);
                    side1.extend_members_effect(joins, Seq::empty());
                    delta_replays(out1, keys, want);
                }
                let changes = Self::propagate_serial(
                    serial,
                    config,
                    middle,
                    pool,
                    Ghost(out1),
                    Ghost(keys),
                );
                assert(steps_of(changes@) == delta(
                    out2,
                    side1.extend_members(joins, Seq::empty()),
                    serial.second.half.output(),
                ));
                changes
            },
            RuntimeStorage::Sharded { runtime, .. } => {
                let ghost first = runtime.first;
                let ghost second = runtime.second;
                let middle = runtime.first.apply_right(
                    diff,
                    &config.right_key1,
                    &config.project1,
                    pool,
                );
                let changes = runtime.second.apply_left_owned(
                    &middle,
                    &config.left_key2,
                    &config.project2,
                    pool,
                );
                proof {
                    second.left().run_rows(steps_of(middle@), lk2);
                    middle_told = steps_of(middle@);
                    if first.sound() && second.sound() && second.left().rows == first.output(
                        self.proj1(),
                    ) && first.right().admits_all(steps, rk1) {
                        first.right().run_effect(steps, rk1);
                        second.left().run_effect(steps_of(middle@), lk2);
                        second.left().fitting_steps_are_admitted(
                            second.left().rows,
                            steps_of(middle@),
                            lk2,
                        );
                    }
                }
                changes
            },
        };
        proof {
            if self.storage is Sharded {
                assert(old(self).divided(start) && start.first.followed_right(
                    self.storage->runtime.first,
                    steps,
                    self.config.right_key1,
                    middle_told,
                ));
            }
        }
        BatchedChanges(changes)
    }

    /// Follows a diff of the right rows of the second join, and tells how the output changes.
    pub fn apply_second_right_diff(&mut self, diff: &MapDiff<RK2, RV2>, pool: Option<&WorkerPool>) -> (changes:
        BatchedChanges<LK, OV>)
        requires
            old(self).wf(),
        ensures
            final(self).wf(),
            final(self).config == old(self).config,
            final(self).shard_count == old(self).shard_count,
            final(self).storage is Sharded == old(self).promotes(saturated(work_of(diff.steps()))),
            final(self).left1() == old(self).left1(),
            final(self).right1() == old(self).right1(),
            final(self).left2() == old(self).left2(),
            final(self).right2() == old(self).right2().run(diff.steps(), old(self).rkey2()),
            flat(changes.0@),
            final(self).storage is Sharded ==> old(self).second_right_through_shards(
                *final(self),
                diff.steps(),
                steps_of(changes.0@),
            ),
            final(self).storage is Serial ==> final(self).sound() && exists|joins: Seq<JK2::Model>|
                #![trigger old(self).left2().extend_members(joins, Seq::empty())]
                old(self).right2().joins_run(diff.steps(), old(self).rkey2(), Seq::empty(), joins)
                    && steps_of(changes.0@) == delta(
                    old(self).output(),
                    old(self).left2().extend_members(joins, Seq::empty()),
                    final(self).output(),
                ),
            final(self).storage is Serial || (old(self).sound() && old(self).right2().admits_all(
                diff.steps(),
                old(self).rkey2(),
            )) ==> final(self).sound() && fits_all(old(self).output(), steps_of(changes.0@))
                && replay(old(self).output(), steps_of(changes.0@)) == final(self).output(),
    {
        self.promote_for(diff.work_items(), pool);
        let ghost start = self.storage->runtime;
        let ghost rk2 = self.rkey2();
        let ghost steps = diff.steps();
        let config = &self.config;
        let changes = match &mut self.storage {
            RuntimeStorage::Serial(serial) => {
                let ghost side2 = serial.second.half.left();
                let ghost right2 = serial.second.right@;
                let ghost out2 = serial.second.half.output();
                proof {
                    serial.second.right.side_wf();
                }
                let changes = serial.second.half.apply_right(
                    &mut serial.second.right,
                    diff,
                    &config.right_key2,
                    &config.project2,
                    pool,
                );
                proof {
                    let joins = choose|joins: Seq<JK2::Model>|
                        #![trigger side2.extend_members(joins, Seq::empty())]
                        right2.joins_run(steps, rk2, Seq::empty(), joins) && steps_of(changes@)
                            == delta(
                            out2,
                            side2.extend_members(joins, Seq::empty()),
                            serial.second.half.output(),
                        );
                    right2.run_effect(steps, rk2);
                    assert(steps_of(changes@) == delta(
                        out2,
                        side2.extend_members(joins, Seq::empty()),
                        serial.second.half.output(),
                    ));
                }
                changes
            },
            RuntimeStorage::Sharded { runtime, .. } => {
                proof {
                    if runtime.second.sound() {
                        runtime.second.right().run_effect(steps, rk2);
                    }
                }
                runtime.second.apply_right(diff, &config.right_key2, &config.project2, pool)
            },
        };
        proof {
            if self.storage is Sharded {
                assert(old(self).divided(start));
            }
        }
        BatchedChanges(changes)
    }
}

/// A change of one row that is set touches that row.
proof fn one_key<K, V, J>(
    side: Side<K, V, J>,
    steps: Seq<Change<K, V>>,
    jk: spec_fn(K, V) -> Option<J>,
    k: K,
)
    requires
        steps.len() == 1,
        match steps[0] {
            Change::Insert { key, value } => key == k,
            Change::Update { key, old_value, new_value } => key == k,
            _ => false,
        },
    ensures
        side.keys_run(steps, jk, Seq::empty(), seq![k]),
        side.run(steps, jk) == side.step(steps[0], jk),
{
    one_step(side, steps, jk);
    assert(steps.drop_last() =~= Seq::empty());
    assert(!Seq::<K>::empty().contains(k));
    assert(Seq::<K>::empty().push(k) =~= seq![k]);
    assert(side.keys_run(steps.drop_last(), jk, Seq::empty(), Seq::empty()));
    assert(side.run(steps.drop_last(), jk).keys_step(steps.last(), Seq::empty(), seq![k]));
}

/// A key whose row of the second join does not change keeps its output.
proof fn same_middle_same_output<K, V, RK, RV, J, O>(
    side: Side<K, V, J>,
    right: Side<RK, RV, J>,
    project: spec_fn(K, V, Seq<(RK, RV)>) -> Option<O>,
    steps: Seq<Change<K, V>>,
    jk: spec_fn(K, V) -> Option<J>,
    touched: Seq<K>,
    keys: Seq<K>,
    want: Map<K, V>,
    k: K,
)
    requires
        side.wf(),
        side.keyed_by(jk),
        forall|k: K, v: V| #[trigger] jk(k, v) is Some,
        side.run(steps, jk).rows == want,
        lookup(side.rows, k) == lookup(want, k),
    ensures
        lookup(joined(side, right, project), k) == lookup(joined(side.run(steps, jk), right, project), k),
{
    side.run_effect(steps, jk);
    let after = side.run(steps, jk);
    joined_lookup(side, right, project, k);
    joined_lookup(after, right, project, k);
    if side.rows.contains_key(k) {
        assert(jk(k, side.rows[k]) == Some(side.keys[k]));
        assert(jk(k, after.rows[k]) == Some(after.keys[k]));
    }
}

/// Two joins in a row without rows, and the order in which their sources are to be followed.
pub fn install_two_keyed_join_runtime_via_query<
    LK: MapKey,
    LV: CellValue,
    RK1: MapKey,
    RV1: CellValue,
    JK1: MapKey,
    MV: CellValue,
    RK2: MapKey,
    RV2: CellValue,
    JK2: MapKey,
    OV: CellValue,
    FL1: RowFn<LK, LV, JK1>,
    FR1: RightJoinKey<RK1, RV1, JK1>,
    P1: StageProject<LK, LV, RK1, RV1, MV>,
    FL2: RowFn<LK, MV, JK2>,
    FR2: RightJoinKey<RK2, RV2, JK2>,
    P2: StageProject<LK, MV, RK2, RV2, OV>,
>(
    left_key1: FL1,
    right_key1: FR1,
    project1: P1,
    left_key2: FL2,
    right_key2: FR2,
    project2: P2,
    pool: Option<&WorkerPool>,
) -> (installed: (
    TwoStageKernel<LK, LV, RK1, RV1, JK1, MV, RK2, RV2, JK2, OV, FL1, FR1, P1, FL2, FR2, P2>,
    RootRegistrationOrder,
))
    requires
        pure2::<LK, LV, JK1, FL1>(left_key1),
        right_key1.lawful(),
        project1.lawful(),
        pure2::<LK, MV, JK2, FL2>(left_key2),
        right_key2.lawful(),
        project2.lawful(),
    ensures
        installed.0.sound(),
        installed.0.storage is Serial,
        installed.0.shard_count == pool_shards(pool),
        installed.0.config == (TwoStageConfig {
            left_key1,
            right_key1,
            project1,
            left_key2,
            right_key2,
            project2,
        }),
        installed.0.left1() == empty_side::<LK::Model, LV::Model, JK1::Model>(),
        installed.0.right1() == empty_side::<RK1::Model, RV1::Model, JK1::Model>(),
        installed.0.right2() == empty_side::<RK2::Model, RV2::Model, JK2::Model>(),
        installed.0.output() == Map::<LK::Model, OV::Model>::empty(),
        installed.1 == RootRegistrationOrder::LeftThenRights,
{
    let kernel = TwoStageKernel::new(
        left_key1,
        right_key1,
        project1,
        left_key2,
        right_key2,
        project2,
        pool,
    );
    (kernel, RootRegistrationOrder::LeftThenRights)
}

/// Two joins of three sources: where the sides hold the rows of three maps, a row of the left map comes
/// out as what the second join makes of what the first makes of it. The first sees `matched.0`, the
/// rows of the first right map that have the row's join key, each once; the second sees `matched.1`,
/// those of the second right map that have the join key of what the first gives.
pub proof fn two_joins_of_sources<
    LK: MapKey,
    LV: CellValue,
    RK1: MapKey,
    RV1: CellValue,
    JK1: MapKey,
    MV: CellValue,
    RK2: MapKey,
    RV2: CellValue,
    JK2: MapKey,
    OV: CellValue,
    FL1: RowFn<LK, LV, JK1>,
    FR1: RightJoinKey<RK1, RV1, JK1>,
    P1: StageProject<LK, LV, RK1, RV1, MV>,
    FL2: RowFn<LK, MV, JK2>,
    FR2: RightJoinKey<RK2, RV2, JK2>,
    P2: StageProject<LK, MV, RK2, RV2, OV>,
>(
    kernel: TwoStageKernel<
        LK,
        LV,
        RK1,
        RV1,
        JK1,
        MV,
        RK2,
        RV2,
        JK2,
        OV,
        FL1,
        FR1,
        P1,
        FL2,
        FR2,
        P2,
    >,
    left: Map<LK::Model, LV::Model>,
    right1: Map<RK1::Model, RV1::Model>,
    right2: Map<RK2::Model, RV2::Model>,
    k: LK::Model,
) -> (matched: (Seq<(RK1::Model, RV1::Model)>, Seq<(RK2::Model, RV2::Model)>))
    requires
        kernel.sound(),
        kernel.left1().tracks(left, kernel.lkey1()),
        kernel.right1().tracks(right1, kernel.rkey1()),
        kernel.right2().tracks(right2, kernel.rkey2()),
    ensures
        lookup(kernel.output(), k) == (match lookup(left, k) {
            Some(v) => match (kernel.proj1())(k, v, matched.0) {
                Some(middle) => (kernel.proj2())(k, middle, matched.1),
                None => None,
            },
            None => None,
        }),
        left.contains_key(k) ==> matches_source(
            matched.0,
            right1,
            kernel.rkey1(),
            (kernel.lkey1())(k, left[k])->Some_0,
        ),
        left.contains_key(k) && (kernel.proj1())(k, left[k], matched.0) is Some ==> matches_source(
            matched.1,
            right2,
            kernel.rkey2(),
            (kernel.lkey2())(k, (kernel.proj1())(k, left[k], matched.0)->Some_0)->Some_0,
        ),
        left.contains_key(k) ==> matched.0 == kernel.right1().matches_of(
            (kernel.lkey1())(k, left[k])->Some_0,
        ),
        left.contains_key(k) && (kernel.proj1())(k, left[k], matched.0) is Some ==> matched.1
            == kernel.right2().matches_of(
            (kernel.lkey2())(k, (kernel.proj1())(k, left[k], matched.0)->Some_0)->Some_0,
        ),
{
    let side1 = kernel.left1();
    let side2 = kernel.left2();
    joined_lookup(side1, kernel.right1(), kernel.proj1(), k);
    joined_lookup(side2, kernel.right2(), kernel.proj2(), k);
    match kernel.storage {
        RuntimeStorage::Serial(serial) => {
            serial.first.right.side_wf();
            serial.second.right.side_wf();
        },
        RuntimeStorage::Sharded { runtime, .. } => {},
    }
    let _ = lookup(side1.rows, k);
    let first = if left.contains_key(k) {
        kernel.right1().matches_of(side1.keys[k])
    } else {
        Seq::empty()
    };
    let second = if side2.rows.contains_key(k) {
        kernel.right2().matches_of(side2.keys[k])
    } else {
        Seq::empty()
    };
    if left.contains_key(k) {
        assert(side1.rows.contains_key(k));
        assert((kernel.lkey1())(k, side1.rows[k]) == Some(side1.keys[k]));
        kernel.right1().matches_of_source(right1, kernel.rkey1(), side1.keys[k]);
        assert(lookup(kernel.middle(), k) == (kernel.proj1())(k, left[k], first));
        if side2.rows.contains_key(k) {
            assert((kernel.lkey2())(k, side2.rows[k]) == Some(side2.keys[k]));
            kernel.right2().matches_of_source(right2, kernel.rkey2(), side2.keys[k]);
        }
    }
    (first, second)
}

} // verus!
