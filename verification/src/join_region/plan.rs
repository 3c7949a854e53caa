//! A left plan followed by a list of join stages.
use std::marker::PhantomData;
use vstd::prelude::*;

use crate::foreign_key::{
    ForeignKeyRelation, IdFor, OptionalRightKey, RequiredRightKey, RightJoinKey,
};
use crate::func::{pure2, RowFn};
use crate::join_lifecycle::RootRegistrationOrder;
use crate::join_region::declaration::{
    DirectProject, IndexPolicy, JCons, JNil, JoinStage, LastStage, MapLast, Push,
    ReplaceLastProject, SharedRelationIndex, StageList, StageProject,
};
use crate::join_region::router::{RegionRouter, DEFAULT_PROMOTION_WORK};
use crate::join_region::sources::SourcedStages;
use crate::join_region::stage_runtime::{RegionStages, RuntimeStages, StageConfig};
use crate::join_runtime::sharded::{pool_shards, query_shard_count};
use crate::parallel::WorkerPool;
use crate::query::{ByMapKey, MapQuery, PlanProperties, ZeroOrOne};
use crate::row_fns::{Collected, OwnKey, ParentKey};
use crate::value::{CellValue, MapKey};

verus! {

/// A left plan followed by any number of join stages, of any types.
pub struct JoinRegion<Left, Stages, K, Input> {
    pub left: Left,
    pub stages: Stages,
    pub types: PhantomData<(K, Input)>,
}

impl<Left, Stages, K, Input> JoinRegion<Left, Stages, K, Input> {
    pub fn new(left: Left, stages: Stages) -> (region: Self)
        ensures
            region.left == left,
            region.stages == stages,
    {
        JoinRegion { left, stages, types: PhantomData }
    }
}

impl<
    Left,
    Stages: StageList<K, Input, Output = Current>,
    K: MapKey,
    Input: CellValue,
    Current: CellValue,
> JoinRegion<Left, Stages, K, Input> {
    /// Maps what the last stage gives, without another plan.
    pub fn map_values<Output: CellValue, F: Fn(&K, &Current) -> Output + Send + Sync + 'static>(self, map: F) -> (region:
        JoinRegion<Left, <Stages as MapLast<F, Output>>::Stages, K, Input>) where
        Stages: MapLast<F, Output>,

        ensures
            region.left == self.left,
            region.stages == MapLast::<F, Output>::mapped_last(self.stages, map),
    {
        JoinRegion::new(self.left, MapLast::<F, Output>::map_last(self.stages, map))
    }

    /// Projects the rows that the last stage matches directly.
    pub fn map_joined_values<Output: CellValue, F>(self, project: F) -> (region: JoinRegion<
        Left,
        <Stages as ReplaceLastProject<F, Output>>::Stages,
        K,
        Input,
    >) where
        Stages: LastStage + ReplaceLastProject<F, Output>,
        F: Fn(
            &K,
            &<Stages as LastStage>::Input,
            &[(<Stages as LastStage>::RightKey, <Stages as LastStage>::RightValue)],
        ) -> Output + Send + Sync + 'static,

        ensures
            region.left == self.left,
            region.stages == ReplaceLastProject::<F, Output>::replaced(self.stages, project),
    {
        JoinRegion::new(
            self.left,
            ReplaceLastProject::<F, Output>::replace_last_project(self.stages, project),
        )
    }

    /// Puts a left join by a relationship behind the last stage.
    pub fn left_join_fk<Rel: ForeignKeyRelation, R: MapQuery<Value = Rel::Child>>(self, right: R) -> (region:
        JoinRegion<
        Left,
        <Stages as Push<
            JoinStage<
                R,
                K,
                Current,
                R::Key,
                Rel::Child,
                K,
                (Current, Vec<Rel::Child>),
                OwnKey,
                OptionalRightKey<ParentKey<Rel>>,
                DirectProject<Collected>,
                SharedRelationIndex<Rel>,
            >,
        >>::Output,
        K,
        Input,
    >) where
        Rel::ForeignKey: IdFor<Rel::Parent, MapKey = K>,
        Stages: Push<
            JoinStage<
                R,
                K,
                Current,
                R::Key,
                Rel::Child,
                K,
                (Current, Vec<Rel::Child>),
                OwnKey,
                OptionalRightKey<ParentKey<Rel>>,
                DirectProject<Collected>,
                SharedRelationIndex<Rel>,
            >,
        >,

        ensures
            region.left == self.left,
            region.stages == self.stages.pushed(
                JoinStage {
                    right,
                    left_key: OwnKey,
                    right_key: OptionalRightKey(ParentKey::<Rel>(PhantomData)),
                    project: DirectProject(Collected),
                    index_policy: SharedRelationIndex::<Rel>(PhantomData),
                    types: PhantomData,
                },
            ),
    {
        let stage = JoinStage::new(
            right,
            OwnKey,
            OptionalRightKey(ParentKey::<Rel>(PhantomData)),
            DirectProject(Collected),
        ).with_index_policy(SharedRelationIndex::<Rel>::new());
        JoinRegion::new(self.left, self.stages.push(stage))
    }

    /// Puts a left join by keys of its own behind the last stage.
    pub fn left_join_by<
        R: MapQuery<Key = RK, Value = RV>,
        RK: MapKey,
        RV: CellValue,
        JK: MapKey,
        FL: Fn(&K, &Current) -> JK + Send + Sync + 'static,
        FR: Fn(&RK, &RV) -> JK + Send + Sync + 'static,
    >(self, right: R, left_key: FL, right_key: FR) -> (region: JoinRegion<
        Left,
        <Stages as Push<
            JoinStage<
                R,
                K,
                Current,
                RK,
                RV,
                JK,
                (Current, Vec<RV>),
                FL,
                RequiredRightKey<FR>,
                DirectProject<Collected>,
            >,
        >>::Output,
        K,
        Input,
    >) where
        Stages: Push<
            JoinStage<
                R,
                K,
                Current,
                RK,
                RV,
                JK,
                (Current, Vec<RV>),
                FL,
                RequiredRightKey<FR>,
                DirectProject<Collected>,
            >,
        >,

        ensures
            region.left == self.left,
            region.stages == self.stages.pushed(
                JoinStage {
                    right,
                    left_key,
                    right_key: RequiredRightKey(right_key),
                    project: DirectProject(Collected),
                    index_policy: crate::join_region::declaration::OwnedIndex,
                    types: PhantomData,
                },
            ),
    {
        let stage = JoinStage::new(
            right,
            left_key,
            RequiredRightKey(right_key),
            DirectProject(Collected),
        );
        JoinRegion::new(self.left, self.stages.push(stage))
    }
}

impl<
    Left: PlanProperties<OutputPartition = ByMapKey<K>>,
    Stages: StageList<K, Input>,
    K: MapKey,
    Input: CellValue,
> PlanProperties for JoinRegion<Left, Stages, K, Input> {
    type Cardinality = ZeroOrOne;

    type InputPartition = Left::InputPartition;

    type OutputPartition = ByMapKey<K>;
}

impl<
    Left: MapQuery<Key = K, Value = Input> + PlanProperties<OutputPartition = ByMapKey<K>>,
    Stages: StageList<K, Input>,
    K: MapKey,
    Input: CellValue,
> MapQuery for JoinRegion<Left, Stages, K, Input> {
    type Key = K;

    type Value = Stages::Output;

    open spec fn raw_source(&self) -> bool {
        false
    }

    fn is_raw_source(&self) -> (raw: bool)
        ensures
            !raw,
    {
        false
    }
}

/// The plan of the right rows of a stage, and whether the stage shares those rows with others.
pub struct RightPlan<Right> {
    pub right: Right,
    pub shared: bool,
}

/// Parts a list of stages into their functions and the plans of their right rows.
pub trait SplitStages<K: MapKey, Input: CellValue>: Sized {
    type Runtime: SourcedStages<K, Input>;

    type Rights;

    /// The functions of the stages.
    spec fn runtime(self) -> Self::Runtime;

    /// The plans of the right rows of the stages.
    spec fn rights(self) -> Self::Rights;

    fn split(self) -> (parts: (Self::Runtime, Self::Rights))
        ensures
            parts.0 == self.runtime(),
            parts.1 == self.rights(),
    ;
}

impl<K: MapKey, Input: CellValue> SplitStages<K, Input> for JNil {
    type Runtime = JNil;

    type Rights = JNil;

    open spec fn runtime(self) -> JNil {
        JNil
    }

    open spec fn rights(self) -> JNil {
        JNil
    }

    fn split(self) -> (parts: (JNil, JNil)) {
        (JNil, JNil)
    }
}

impl<
    Right: MapQuery<Key = RK, Value = RV>,
    K: MapKey,
    Input: CellValue,
    RK: MapKey,
    RV: CellValue,
    JK: MapKey,
    Output: CellValue,
    FL: RowFn<K, Input, JK>,
    FR: RightJoinKey<RK, RV, JK>,
    P: StageProject<K, Input, RK, RV, Output>,
    Policy: IndexPolicy,
    Tail: SplitStages<K, Output>,
> SplitStages<K, Input> for JCons<
    JoinStage<Right, K, Input, RK, RV, JK, Output, FL, FR, P, Policy>,
    Tail,
> {
    type Runtime = JCons<StageConfig<K, Input, RK, RV, JK, Output, FL, FR, P>, Tail::Runtime>;

    type Rights = JCons<RightPlan<Right>, Tail::Rights>;

    open spec fn runtime(self) -> Self::Runtime {
        JCons {
            head: StageConfig {
                left_key: self.head.left_key,
                right_key: self.head.right_key,
                project: self.head.project,
                types: PhantomData,
            },
            tail: self.tail.runtime(),
        }
    }

    open spec fn rights(self) -> Self::Rights {
        JCons {
            head: RightPlan {
                right: self.head.right,
                shared: self.head.index_policy.shares_rows(self.head.right.raw_source()),
            },
            tail: self.tail.rights(),
        }
    }

    fn split(self) -> (parts: (Self::Runtime, Self::Rights)) {
        let JoinStage { right, left_key, right_key, project, index_policy, .. } = self.head;
        let raw = right.is_raw_source();
        let shared = index_policy.shares(raw);
        let (runtime, rights) = self.tail.split();
        (
            JCons {
                head: StageConfig { left_key, right_key, project, types: PhantomData },
                tail: runtime,
            },
            JCons { head: RightPlan { right, shared }, tail: rights },
        )
    }
}

/// The functions of a list of stages can be called.
pub open spec fn region_lawful<Stages: SplitStages<K, Input>, K: MapKey, Input: CellValue>(
    stages: Stages,
) -> bool {
    stages.runtime().lawful()
}

/// The functions of a list of stages can be called where those of the first stage and of the others
/// can.
pub proof fn stages_lawful<
    Right: MapQuery<Key = RK, Value = RV>,
    K: MapKey,
    Input: CellValue,
    RK: MapKey,
    RV: CellValue,
    JK: MapKey,
    Output: CellValue,
    FL: RowFn<K, Input, JK>,
    FR: RightJoinKey<RK, RV, JK>,
    P: StageProject<K, Input, RK, RV, Output>,
    Policy: IndexPolicy,
    Tail: SplitStages<K, Output>,
>(
    stages: JCons<
        JoinStage<Right, K, Input, RK, RV, JK, Output, FL, FR, P, Policy>,
        Tail,
    >,
)
    requires
        pure2::<K, Input, JK, FL>(stages.head.left_key),
        stages.head.right_key.lawful(),
        stages.head.project.lawful(),
        region_lawful::<Tail, K, Output>(stages.tail),
    ensures
        region_lawful::<
            JCons<JoinStage<Right, K, Input, RK, RV, JK, Output, FL, FR, P, Policy>, Tail>,
            K,
            Input,
        >(stages),
{
}

/// The functions of no stages can be called.
pub proof fn no_stages_lawful<K: MapKey, Input: CellValue>(stages: JNil)
    ensures
        region_lawful::<JNil, K, Input>(stages),
{
}

/// A join region that can be followed: its left plan, the plans of its right rows, its router, and
/// the order in which the plans are to be followed.
#[verifier::reject_recursive_types(K)]
#[verifier::reject_recursive_types(Input)]
#[verifier::reject_recursive_types(Runtime)]
pub struct RegionBuild<Left, Rights, Runtime: RegionStages<K, Input>, K: MapKey, Input: CellValue> {
    pub left: Left,
    pub rights: Rights,
    pub router: RegionRouter<Runtime, K, Input>,
    pub order: RootRegistrationOrder,
}

impl<
    Left: MapQuery<Key = K, Value = Input> + PlanProperties<OutputPartition = ByMapKey<K>>,
    Stages: SplitStages<K, Input>,
    K: MapKey,
    Input: CellValue,
> JoinRegion<Left, Stages, K, Input> where Stages::Runtime: RegionStages<K, Input> {
    /// The region without rows.
    pub fn build_into(self, pool: Option<&WorkerPool>) -> (built: RegionBuild<
        Left,
        Stages::Rights,
        Stages::Runtime,
        K,
        Input,
    >)
        requires
            region_lawful::<Stages, K, Input>(self.stages),
        ensures
            built.left == self.left,
            built.rights == self.stages.rights(),
            built.order == RootRegistrationOrder::RightsThenLeft,
            built.router.wf(),
            built.router.stages() == self.stages.runtime(),
            built.router.rows() == Map::<K::Model, Input::Model>::empty(),
            !built.router.sharded(),
            built.router.stages().bare(built.router.rights()),
            built.router.live() == Seq::<K::Model>::empty(),
            built.router.numbered() == 0,
            built.router.begin().state == 0,
            built.router.promotion_work() == DEFAULT_PROMOTION_WORK,
            built.router.shard_count() == pool_shards(pool),
    {
        let (runtime, rights) = self.stages.split();
        RegionBuild {
            left: self.left,
            rights,
            router: RegionRouter::new(runtime, query_shard_count(pool)),
            order: RootRegistrationOrder::RightsThenLeft,
        }
    }
}

} // verus!
