//! Left joins: each left row with the right rows that match it.
use std::marker::PhantomData;
use vstd::prelude::*;

use crate::diff::entries_map;
use crate::foreign_key::{
    ForeignKeyRelation, IdFor, OptionalRightKey, RequiredRightKey, RightJoinKey,
};
use crate::func::{
    call2, call_rows, closure_known, closure_laws, image2, image_rows, pure2, pure_rows,
    row_closure, rows_closure, rows_closure_known, rows_closure_laws, RowFn, RowsFn,
};
use crate::fx::lookup;
use crate::index::{empty_side, entry_keys};
use crate::join_lifecycle::RootRegistrationOrder;
use crate::join_region::declaration::{
    collect_matches, row_values, DirectProject, JCons, JNil, JoinStage, OwnedIndex,
    SharedRelationIndex, StageProject,
};
use crate::join_region::plan::JoinRegion;
use crate::join_runtime::keyed::{
    install_keyed_join_runtime_via_query, KeyedJoinConfig, KeyedJoinInstall, KeyedJoinNode,
};
use crate::join_runtime::sharded::pool_shards;
use crate::join_runtime::state::joined_lookup;
use crate::join_runtime::two_stage::{
    install_two_keyed_join_runtime_via_query, TwoStageConfig, TwoStageKernel,
};
use crate::map_values::MapValuesPlan;
use crate::parallel::WorkerPool;
use crate::query::{ByMapKey, ByRelation, ExactlyOne, MapQuery, PlanProperties, PreservesMapKey};
use crate::row_fns::{Collected, OwnKey, ParentKey};
use crate::value::{models, CellValue, MapKey};

verus! {

/// A plan with the relationship that its rows are joined by.
pub struct RelationPlan<P, Rel> {
    pub plan: P,
    pub relation: PhantomData<Rel>,
}

impl<P, Rel> RelationPlan<P, Rel> {
    pub fn new(plan: P) -> (related: Self)
        ensures
            related.plan == plan,
    {
        RelationPlan { plan, relation: PhantomData }
    }
}

impl<P: PlanProperties, Rel> PlanProperties for RelationPlan<P, Rel> {
    type Cardinality = P::Cardinality;

    type InputPartition = P::InputPartition;

    type OutputPartition = ByRelation<Rel>;
}

impl<P: MapQuery, Rel> MapQuery for RelationPlan<P, Rel> {
    type Key = P::Key;

    type Value = P::Value;

    open spec fn raw_source(&self) -> bool {
        false
    }

    fn is_raw_source(&self) -> (raw: bool)
        ensures
            !raw,
    {
        false
    }
}

/// Each left row with the values of the right rows that match it, under the key of the left row.
pub struct LeftJoinPlan<L, R, LK, LV, RK, RV, JK, FL, FR> {
    pub left: L,
    pub right: R,
    pub left_key: FL,
    pub right_key: FR,
    pub types: PhantomData<(LK, LV, RK, RV, JK)>,
}

impl<
    L: MapQuery<Key = LK, Value = LV>,
    R: MapQuery<Key = RK, Value = RV>,
    LK: MapKey,
    LV: CellValue,
    RK: MapKey,
    RV: CellValue,
    JK: MapKey,
    FL: RowFn<LK, LV, JK>,
    FR: RightJoinKey<RK, RV, JK>,
> PlanProperties for LeftJoinPlan<L, R, LK, LV, RK, RV, JK, FL, FR> {
    type Cardinality = ExactlyOne;

    type InputPartition = L::OutputPartition;

    type OutputPartition = ByMapKey<LK>;
}

impl<
    L: MapQuery<Key = LK, Value = LV>,
    R: MapQuery<Key = RK, Value = RV>,
    LK: MapKey,
    LV: CellValue,
    RK: MapKey,
    RV: CellValue,
    JK: MapKey,
    FL: RowFn<LK, LV, JK>,
    FR: RightJoinKey<RK, RV, JK>,
> MapQuery for LeftJoinPlan<L, R, LK, LV, RK, RV, JK, FL, FR> {
    type Key = LK;

    type Value = (LV, Vec<RV>);

    open spec fn raw_source(&self) -> bool {
        false
    }

    fn is_raw_source(&self) -> (raw: bool)
        ensures
            !raw,
    {
        false
    }
}

/// A join of two plans without rows.
#[verifier::reject_recursive_types(LK)]
#[verifier::reject_recursive_types(LV)]
#[verifier::reject_recursive_types(RK)]
#[verifier::reject_recursive_types(RV)]
#[verifier::reject_recursive_types(JK)]
#[verifier::reject_recursive_types(OV)]
pub struct JoinBuild<
    L,
    R,
    LK: MapKey,
    LV: CellValue,
    RK: MapKey,
    RV: CellValue,
    JK: MapKey,
    OV: CellValue,
    FL,
    FR,
    P,
> {
    pub left: L,
    pub right: R,
    pub install: KeyedJoinInstall<LK, LV, RK, RV, JK, OV, FL, FR, P>,
}

impl<L, R, LK: MapKey, LV: CellValue, RK: MapKey, RV: CellValue, JK: MapKey, OV: CellValue, FL: RowFn<LK, LV, JK>, FR: RightJoinKey<RK, RV, JK>, P: StageProject<LK, LV, RK, RV, OV>> JoinBuild<
    L,
    R,
    LK,
    LV,
    RK,
    RV,
    JK,
    OV,
    FL,
    FR,
    P,
> {
    /// A join of two plans by these functions, which shares its right rows where told.
    pub open spec fn made(
        &self,
        left: L,
        right: R,
        config: KeyedJoinConfig<FL, FR, P>,
        shared: bool,
    ) -> bool {
        &&& self.left == left
        &&& self.right == right
        &&& shared == (self.install is Shared)
        &&& match self.install {
            KeyedJoinInstall::Owned(node) => {
                &&& node.wf()
                &&& node.join.config == config
                &&& node.join.half.left() == empty_side::<LK::Model, LV::Model, JK::Model>()
                &&& node.right@ == empty_side::<RK::Model, RV::Model, JK::Model>()
            },
            KeyedJoinInstall::Shared(runtime) => {
                &&& runtime.config == config
                &&& runtime.half.left() == empty_side::<LK::Model, LV::Model, JK::Model>()
                &&& forall|right: crate::index::Side<RK::Model, RV::Model, JK::Model>| #[trigger]
                    runtime.joins::<RK, RV>(right)
            },
        }
    }
}

/// A join of two plans without rows, with right rows of its own.
pub fn owned_join<LK: MapKey, LV: CellValue, RK: MapKey, RV: CellValue, JK: MapKey, OV: CellValue, FL: RowFn<LK, LV, JK>, FR: RightJoinKey<RK, RV, JK>, P: StageProject<LK, LV, RK, RV, OV>>(
    left_key: FL,
    right_key: FR,
    project: P,
) -> (node: KeyedJoinNode<LK, LV, RK, RV, JK, OV, FL, FR, P>)
    requires
        pure2::<LK, LV, JK, FL>(left_key),
        right_key.lawful(),
        project.lawful(),
    ensures
        node.wf(),
        node.join.config == (KeyedJoinConfig { left_key, right_key, project }),
        node.join.half.left() == empty_side::<LK::Model, LV::Model, JK::Model>(),
        node.right@ == empty_side::<RK::Model, RV::Model, JK::Model>(),
{
    match install_keyed_join_runtime_via_query(false, false, left_key, right_key, project) {
        KeyedJoinInstall::Owned(node) => node,
        KeyedJoinInstall::Shared(_) => vstd::pervasive::unreached(),
    }
}

impl<
    L,
    R,
    LK: MapKey,
    LV: CellValue,
    RK: MapKey,
    RV: CellValue,
    JK: MapKey,
    FL: RowFn<LK, LV, JK>,
    FR: RightJoinKey<RK, RV, JK>,
> LeftJoinPlan<L, R, LK, LV, RK, RV, JK, FL, FR> {
    /// The two plans, and the join to put behind them.
    pub fn build_into(self) -> (built: (
        L,
        R,
        KeyedJoinNode<LK, LV, RK, RV, JK, (LV, Vec<RV>), FL, FR, DirectProject<Collected>>,
    ))
        requires
            pure2::<LK, LV, JK, FL>(self.left_key),
            self.right_key.lawful(),
        ensures
            built.0 == self.left,
            built.1 == self.right,
            built.2.wf(),
            built.2.join.config == (KeyedJoinConfig {
                left_key: self.left_key,
                right_key: self.right_key,
                project: DirectProject(Collected),
            }),
            built.2.join.half.left() == empty_side::<LK::Model, LV::Model, JK::Model>(),
            built.2.right@ == empty_side::<RK::Model, RV::Model, JK::Model>(),
    {
        (
            self.left,
            self.right,
            owned_join(self.left_key, self.right_key, DirectProject(Collected)),
        )
    }

    /// Projects each left row and the right rows that match it directly, without first gathering
    /// their values.
    pub fn map_joined_values<OV: CellValue, F: Fn(&LK, &LV, &[(RK, RV)]) -> OV + Send + Sync + 'static>(
        self,
        projection: F,
    ) -> (plan: JoinedValuesPlan<L, R, LK, LV, RK, RV, JK, OV, FL, FR, F>)
        ensures
            plan.join == self,
            plan.projection == projection,
            rows_closure::<LK, LV, RK, RV, OV, F>(projection) ==> rows_closure_known::<
                LK,
                LV,
                RK,
                RV,
                OV,
                F,
            >(projection),
    {
        proof {
            if rows_closure::<LK, LV, RK, RV, OV, F>(projection) {
                rows_closure_laws::<LK, LV, RK, RV, OV, F>(projection);
            }
        }
        JoinedValuesPlan { join: self, projection, output: PhantomData }
    }
}

impl<
    L,
    R: MapQuery<Key = RK, Value = RV>,
    LK: MapKey,
    LV: CellValue,
    RK: MapKey,
    RV: CellValue,
    JK: MapKey,
    FL: RowFn<LK, LV, JK>,
    FR: RightJoinKey<RK, RV, JK>,
    Rel,
> RelationPlan<LeftJoinPlan<L, R, LK, LV, RK, RV, JK, FL, FR>, Rel> {
    /// Projects each left row and the right rows that match it directly, and keeps the relationship.
    pub fn map_joined_values<OV: CellValue, F: Fn(&LK, &LV, &[(RK, RV)]) -> OV + Send + Sync + 'static>(
        self,
        projection: F,
    ) -> (plan: RelationPlan<JoinedValuesPlan<L, R, LK, LV, RK, RV, JK, OV, FL, FR, F>, Rel>)
        ensures
            plan.plan.join == self.plan,
            plan.plan.projection == projection,
            rows_closure::<LK, LV, RK, RV, OV, F>(projection) ==> rows_closure_known::<
                LK,
                LV,
                RK,
                RV,
                OV,
                F,
            >(projection),
    {
        proof {
            if rows_closure::<LK, LV, RK, RV, OV, F>(projection) {
                rows_closure_laws::<LK, LV, RK, RV, OV, F>(projection);
            }
        }
        RelationPlan { plan: self.plan.map_joined_values(projection), relation: PhantomData }
    }

    /// The two plans, and the join to put behind them. The join shares its right rows where they
    /// come from a source itself.
    pub fn build_into(self) -> (built: JoinBuild<
        L,
        R,
        LK,
        LV,
        RK,
        RV,
        JK,
        (LV, Vec<RV>),
        FL,
        FR,
        DirectProject<Collected>,
    >)
        requires
            pure2::<LK, LV, JK, FL>(self.plan.left_key),
            self.plan.right_key.lawful(),
        ensures
            built.made(
                self.plan.left,
                self.plan.right,
                KeyedJoinConfig {
                    left_key: self.plan.left_key,
                    right_key: self.plan.right_key,
                    project: DirectProject(Collected),
                },
                self.plan.right.raw_source(),
            ),
    {
        let raw = self.plan.right.is_raw_source();
        JoinBuild {
            left: self.plan.left,
            right: self.plan.right,
            install: install_keyed_join_runtime_via_query(
                true,
                raw,
                self.plan.left_key,
                self.plan.right_key,
                DirectProject(Collected),
            ),
        }
    }
}

/// A left join whose rows are projected from the left row and the right rows that match it.
pub struct JoinedValuesPlan<L, R, LK, LV, RK, RV, JK, OV, FL, FR, F> {
    pub join: LeftJoinPlan<L, R, LK, LV, RK, RV, JK, FL, FR>,
    pub projection: F,
    pub output: PhantomData<OV>,
}

impl<
    L: MapQuery<Key = LK, Value = LV>,
    R: MapQuery<Key = RK, Value = RV>,
    LK: MapKey,
    LV: CellValue,
    RK: MapKey,
    RV: CellValue,
    JK: MapKey,
    OV: CellValue,
    FL: RowFn<LK, LV, JK>,
    FR: RightJoinKey<RK, RV, JK>,
    F: RowsFn<LK, LV, RK, RV, OV>,
> PlanProperties for JoinedValuesPlan<L, R, LK, LV, RK, RV, JK, OV, FL, FR, F> {
    type Cardinality = ExactlyOne;

    type InputPartition = L::OutputPartition;

    type OutputPartition = ByMapKey<LK>;
}

impl<
    L: MapQuery<Key = LK, Value = LV>,
    R: MapQuery<Key = RK, Value = RV>,
    LK: MapKey,
    LV: CellValue,
    RK: MapKey,
    RV: CellValue,
    JK: MapKey,
    OV: CellValue,
    FL: RowFn<LK, LV, JK>,
    FR: RightJoinKey<RK, RV, JK>,
    F: RowsFn<LK, LV, RK, RV, OV>,
> MapQuery for JoinedValuesPlan<L, R, LK, LV, RK, RV, JK, OV, FL, FR, F> {
    type Key = LK;

    type Value = OV;

    open spec fn raw_source(&self) -> bool {
        false
    }

    fn is_raw_source(&self) -> (raw: bool)
        ensures
            !raw,
    {
        false
    }
}

impl<
    L,
    R,
    LK: MapKey,
    LV: CellValue,
    RK: MapKey,
    RV: CellValue,
    JK: MapKey,
    OV: CellValue,
    FL: RowFn<LK, LV, JK>,
    FR: RightJoinKey<RK, RV, JK>,
    F: RowsFn<LK, LV, RK, RV, OV>,
> JoinedValuesPlan<L, R, LK, LV, RK, RV, JK, OV, FL, FR, F> {
    /// The two plans, and the join to put behind them.
    pub fn build_into(self) -> (built: (
        L,
        R,
        KeyedJoinNode<LK, LV, RK, RV, JK, OV, FL, FR, DirectProject<F>>,
    ))
        requires
            pure2::<LK, LV, JK, FL>(self.join.left_key),
            self.join.right_key.lawful(),
            pure_rows::<LK, LV, RK, RV, OV, F>(self.projection),
        ensures
            built.0 == self.join.left,
            built.1 == self.join.right,
            built.2.wf(),
            built.2.join.config == (KeyedJoinConfig {
                left_key: self.join.left_key,
                right_key: self.join.right_key,
                project: DirectProject(self.projection),
            }),
            built.2.join.half.left() == empty_side::<LK::Model, LV::Model, JK::Model>(),
            built.2.right@ == empty_side::<RK::Model, RV::Model, JK::Model>(),
    {
        (
            self.join.left,
            self.join.right,
            owned_join(self.join.left_key, self.join.right_key, DirectProject(self.projection)),
        )
    }
}

impl<
    L,
    R: MapQuery<Key = RK, Value = RV>,
    LK: MapKey,
    LV: CellValue,
    RK: MapKey,
    RV: CellValue,
    JK: MapKey,
    OV: CellValue,
    FL: RowFn<LK, LV, JK>,
    FR: RightJoinKey<RK, RV, JK>,
    F: RowsFn<LK, LV, RK, RV, OV>,
    Rel,
> RelationPlan<JoinedValuesPlan<L, R, LK, LV, RK, RV, JK, OV, FL, FR, F>, Rel> {
    /// The two plans, and the join to put behind them. The join shares its right rows where they
    /// come from a source itself.
    pub fn build_into(self) -> (built: JoinBuild<
        L,
        R,
        LK,
        LV,
        RK,
        RV,
        JK,
        OV,
        FL,
        FR,
        DirectProject<F>,
    >)
        requires
            pure2::<LK, LV, JK, FL>(self.plan.join.left_key),
            self.plan.join.right_key.lawful(),
            pure_rows::<LK, LV, RK, RV, OV, F>(self.plan.projection),
        ensures
            built.made(
                self.plan.join.left,
                self.plan.join.right,
                KeyedJoinConfig {
                    left_key: self.plan.join.left_key,
                    right_key: self.plan.join.right_key,
                    project: DirectProject(self.plan.projection),
                },
                self.plan.join.right.raw_source(),
            ),
    {
        let raw = self.plan.join.right.is_raw_source();
        JoinBuild {
            left: self.plan.join.left,
            right: self.plan.join.right,
            install: install_keyed_join_runtime_via_query(
                true,
                raw,
                self.plan.join.left_key,
                self.plan.join.right_key,
                DirectProject(self.plan.projection),
            ),
        }
    }
}

/// Marks the projections that a join region can take over.
pub trait Sealed {

}

/// A projection of a left row and the right rows that match it.
pub trait JoinProjection<
    LK: CellValue,
    LV: CellValue,
    RK: CellValue,
    RV: CellValue,
    OV: CellValue,
>: Sealed + Send + Sync + 'static {
    /// The projection can be called, and its result depends on the models of its arguments alone.
    spec fn lawful(&self) -> bool;

    /// The model of the projected row.
    spec fn projected(
        &self,
        key: LK::Model,
        left: LV::Model,
        rights: Seq<(RK::Model, RV::Model)>,
    ) -> OV::Model;

    fn project(&self, key: &LK, left: &LV, rights: &[(RK, RV)]) -> (output: OV)
        requires
            self.lawful(),
        ensures
            output.model() == self.projected(key.model(), left.model(), models(rights@)),
    ;
}

/// A projection of a left row and the right rows that match it, as that of a stage.
pub struct JoinProjectionProject<P>(pub P);

impl<
    LK: CellValue,
    LV: CellValue,
    RK: CellValue,
    RV: CellValue,
    OV: CellValue,
    P: JoinProjection<LK, LV, RK, RV, OV>,
> StageProject<LK, LV, RK, RV, OV> for JoinProjectionProject<P> {
    open spec fn lawful(&self) -> bool {
        self.0.lawful()
    }

    open spec fn projected(
        &self,
        key: LK::Model,
        input: LV::Model,
        rights: Seq<(RK::Model, RV::Model)>,
    ) -> Option<OV::Model> {
        Some(self.0.projected(key, input, rights))
    }

    fn project(&self, key: &LK, input: &LV, rights: &[(RK, RV)]) -> (output: Option<OV>)
        ensures
            output is Some,
            output->Some_0.model() == self.0.projected(
                key.model(),
                input.model(),
                models(rights@),
            ),
    {
        Some(self.0.project(key, input, rights))
    }
}

/// A projection can be called as that of a stage where it can be called.
pub proof fn join_projection_lawful<
    LK: CellValue,
    LV: CellValue,
    RK: CellValue,
    RV: CellValue,
    OV: CellValue,
    P: JoinProjection<LK, LV, RK, RV, OV>,
>(project: JoinProjectionProject<P>)
    requires
        project.0.lawful(),
    ensures
        StageProject::<LK, LV, RK, RV, OV>::lawful(&project),
{
}

/// A projection of the left row and the values of the right rows that match it.
pub struct TupleJoinProjection<F>(pub F);

impl<F> Sealed for TupleJoinProjection<F> {

}

impl<
    LK: CellValue,
    LV: CellValue,
    RK: CellValue,
    RV: CellValue,
    OV: CellValue,
    F: RowFn<LK, (LV, Vec<RV>), OV>,
> JoinProjection<LK, LV, RK, RV, OV> for TupleJoinProjection<F> {
    open spec fn lawful(&self) -> bool {
        pure2::<LK, (LV, Vec<RV>), OV, F>(self.0)
    }

    open spec fn projected(
        &self,
        key: LK::Model,
        left: LV::Model,
        rights: Seq<(RK::Model, RV::Model)>,
    ) -> OV::Model {
        image2::<LK, (LV, Vec<RV>), OV, F>(self.0, key, (left, row_values(rights)))
    }

    fn project(&self, key: &LK, left: &LV, rights: &[(RK, RV)]) -> (output: OV)
        ensures
            exists|values: Seq<RV::Model>|
                #![trigger self.0.image(key.model(), (left.model(), values))]
                values.len() == rights@.len() && (forall|i: int|
                    0 <= i < rights@.len() ==> #[trigger] values[i] == rights@[i].1.model())
                    && output.model() == self.0.image(key.model(), (left.model(), values)),
    {
        let joined = collect_matches(key, left, rights);
        proof {
            let values = models(joined.1@);
            assert forall|i: int| 0 <= i < rights@.len() implies #[trigger] values[i]
                == rights@[i].1.model() by {
                assert(joined.1@[i].model() == rights@[i].1.model());
            }
            assert(joined.model() == (left.model(), values));
        }
        call2(&self.0, key, &joined)
    }
}

/// A projection that reads the matching right rows directly.
pub struct DirectJoinProjection<F>(pub F);

impl<F> Sealed for DirectJoinProjection<F> {

}

impl<
    LK: CellValue,
    LV: CellValue,
    RK: CellValue,
    RV: CellValue,
    OV: CellValue,
    F: RowsFn<LK, LV, RK, RV, OV>,
> JoinProjection<LK, LV, RK, RV, OV> for DirectJoinProjection<F> {
    open spec fn lawful(&self) -> bool {
        pure_rows::<LK, LV, RK, RV, OV, F>(self.0)
    }

    open spec fn projected(
        &self,
        key: LK::Model,
        left: LV::Model,
        rights: Seq<(RK::Model, RV::Model)>,
    ) -> OV::Model {
        image_rows::<LK, LV, RK, RV, OV, F>(self.0, key, left, rights)
    }

    fn project(&self, key: &LK, left: &LV, rights: &[(RK, RV)]) -> (output: OV)
        ensures
            output.model() == self.0.image(key.model(), left.model(), models(rights@)),
    {
        call_rows(&self.0, key, left, rights)
    }
}

/// Two left joins in a row, worked on by one runtime.
pub struct TwoLeftJoinPlan<
    L,
    R1,
    R2,
    LK,
    LV,
    RK1,
    RV1,
    JK1,
    MV,
    RK2,
    RV2,
    JK2,
    FL1,
    FR1,
    FM1,
    FL2,
    FR2,
> {
    pub left: L,
    pub right1: R1,
    pub right2: R2,
    pub left_key1: FL1,
    pub right_key1: FR1,
    pub map_first: FM1,
    pub left_key2: FL2,
    pub right_key2: FR2,
    pub types: PhantomData<(LK, LV, RK1, RV1, JK1, MV, RK2, RV2, JK2)>,
}

impl<
    L: MapQuery<Key = LK, Value = LV>,
    R1: MapQuery<Key = RK1, Value = RV1>,
    R2: MapQuery<Key = RK2, Value = RV2>,
    LK: MapKey,
    LV: CellValue,
    RK1: MapKey,
    RV1: CellValue,
    JK1: MapKey,
    MV: CellValue,
    RK2: MapKey,
    RV2: CellValue,
    JK2: MapKey,
    FL1: RowFn<LK, LV, JK1>,
    FR1: RightJoinKey<RK1, RV1, JK1>,
    FM1: JoinProjection<LK, LV, RK1, RV1, MV>,
    FL2: RowFn<LK, MV, JK2>,
    FR2: RightJoinKey<RK2, RV2, JK2>,
> PlanProperties for TwoLeftJoinPlan<
    L,
    R1,
    R2,
    LK,
    LV,
    RK1,
    RV1,
    JK1,
    MV,
    RK2,
    RV2,
    JK2,
    FL1,
    FR1,
    FM1,
    FL2,
    FR2,
> {
    type Cardinality = ExactlyOne;

    type InputPartition = L::OutputPartition;

    type OutputPartition = ByMapKey<LK>;
}

impl<
    L: MapQuery<Key = LK, Value = LV>,
    R1: MapQuery<Key = RK1, Value = RV1>,
    R2: MapQuery<Key = RK2, Value = RV2>,
    LK: MapKey,
    LV: CellValue,
    RK1: MapKey,
    RV1: CellValue,
    JK1: MapKey,
    MV: CellValue,
    RK2: MapKey,
    RV2: CellValue,
    JK2: MapKey,
    FL1: RowFn<LK, LV, JK1>,
    FR1: RightJoinKey<RK1, RV1, JK1>,
    FM1: JoinProjection<LK, LV, RK1, RV1, MV>,
    FL2: RowFn<LK, MV, JK2>,
    FR2: RightJoinKey<RK2, RV2, JK2>,
> MapQuery for TwoLeftJoinPlan<
    L,
    R1,
    R2,
    LK,
    LV,
    RK1,
    RV1,
    JK1,
    MV,
    RK2,
    RV2,
    JK2,
    FL1,
    FR1,
    FM1,
    FL2,
    FR2,
> {
    type Key = LK;

    type Value = (MV, Vec<RV2>);

    open spec fn raw_source(&self) -> bool {
        false
    }

    fn is_raw_source(&self) -> (raw: bool)
        ensures
            !raw,
    {
        false
    }
}

/// Two left joins in a row with a projection of what they give.
pub struct TwoLeftJoinMappedPlan<P, LK, MV, RK2, RV2, OV, F> {
    pub plan: P,
    pub map_second: F,
    pub types: PhantomData<(LK, MV, RK2, RV2, OV)>,
}

impl<
    P: MapQuery<Key = LK, Value = (MV, Vec<RV2>)>,
    LK: MapKey,
    MV: CellValue,
    RK2: MapKey,
    RV2: CellValue,
    OV: CellValue,
    F: JoinProjection<LK, MV, RK2, RV2, OV>,
> PlanProperties for TwoLeftJoinMappedPlan<P, LK, MV, RK2, RV2, OV, F> {
    type Cardinality = ExactlyOne;

    type InputPartition = P::InputPartition;

    type OutputPartition = ByMapKey<LK>;
}

impl<
    P: MapQuery<Key = LK, Value = (MV, Vec<RV2>)>,
    LK: MapKey,
    MV: CellValue,
    RK2: MapKey,
    RV2: CellValue,
    OV: CellValue,
    F: JoinProjection<LK, MV, RK2, RV2, OV>,
> MapQuery for TwoLeftJoinMappedPlan<P, LK, MV, RK2, RV2, OV, F> {
    type Key = LK;

    type Value = OV;

    open spec fn raw_source(&self) -> bool {
        false
    }

    fn is_raw_source(&self) -> (raw: bool)
        ensures
            !raw,
    {
        false
    }
}

impl<
    L,
    R1,
    R2,
    LK: MapKey,
    LV: CellValue,
    RK1: MapKey,
    RV1: CellValue,
    JK1: MapKey,
    MV: CellValue,
    RK2: MapKey,
    RV2: CellValue,
    JK2: MapKey,
    FL1: RowFn<LK, LV, JK1>,
    FR1: RightJoinKey<RK1, RV1, JK1>,
    FM1: JoinProjection<LK, LV, RK1, RV1, MV>,
    FL2: RowFn<LK, MV, JK2>,
    FR2: RightJoinKey<RK2, RV2, JK2>,
> TwoLeftJoinPlan<L, R1, R2, LK, LV, RK1, RV1, JK1, MV, RK2, RV2, JK2, FL1, FR1, FM1, FL2, FR2> {
    /// The three plans, the two joins to put behind them, and the order in which the plans are to be
    /// followed.
    pub fn build_into(
        self,
        pool: Option<&WorkerPool>,
    ) -> (built: (
        L,
        R1,
        R2,
        TwoStageKernel<
            LK,
            LV,
            RK1,
            RV1,
            JK1,
            MV,
            RK2,
            RV2,
            JK2,
            (MV, Vec<RV2>),
            FL1,
            FR1,
            JoinProjectionProject<FM1>,
            FL2,
            FR2,
            DirectProject<Collected>,
        >,
        RootRegistrationOrder,
    ))
        requires
            pure2::<LK, LV, JK1, FL1>(self.left_key1),
            self.right_key1.lawful(),
            self.map_first.lawful(),
            pure2::<LK, MV, JK2, FL2>(self.left_key2),
            self.right_key2.lawful(),
        ensures
            built.0 == self.left,
            built.1 == self.right1,
            built.2 == self.right2,
            built.3.sound(),
            built.3.shard_count == pool_shards(pool),
            built.3.config == (TwoStageConfig {
                left_key1: self.left_key1,
                right_key1: self.right_key1,
                project1: JoinProjectionProject(self.map_first),
                left_key2: self.left_key2,
                right_key2: self.right_key2,
                project2: DirectProject(Collected),
            }),
            built.3.left1() == empty_side::<LK::Model, LV::Model, JK1::Model>(),
            built.3.right1() == empty_side::<RK1::Model, RV1::Model, JK1::Model>(),
            built.3.right2() == empty_side::<RK2::Model, RV2::Model, JK2::Model>(),
            built.4 == RootRegistrationOrder::LeftThenRights,
    {
        let (kernel, order) = install_two_keyed_join_runtime_via_query(
            self.left_key1,
            self.right_key1,
            JoinProjectionProject(self.map_first),
            self.left_key2,
            self.right_key2,
            DirectProject(Collected),
            pool,
        );
        (self.left, self.right1, self.right2, kernel, order)
    }

    /// Projects what the two joins give, in one runtime.
    pub fn map_values<OV: CellValue, F: Fn(&LK, &(MV, Vec<RV2>)) -> OV + Send + Sync + 'static>(
        self,
        f: F,
    ) -> (plan: TwoLeftJoinMappedPlan<Self, LK, MV, RK2, RV2, OV, TupleJoinProjection<F>>)
        ensures
            plan.plan == self,
            plan.map_second == TupleJoinProjection(f),
            row_closure::<LK, (MV, Vec<RV2>), OV, F>(f) ==> closure_known::<
                LK,
                (MV, Vec<RV2>),
                OV,
                F,
            >(f) && JoinProjection::<LK, MV, RK2, RV2, OV>::lawful(&plan.map_second),
    {
        proof {
            if row_closure::<LK, (MV, Vec<RV2>), OV, F>(f) {
                closure_laws::<LK, (MV, Vec<RV2>), OV, F>(f);
            }
        }
        TwoLeftJoinMappedPlan {
            plan: self,
            map_second: TupleJoinProjection(f),
            types: PhantomData,
        }
    }

    /// Projects the rows that the second join matches directly.
    pub fn map_joined_values<OV: CellValue, F: Fn(&LK, &MV, &[(RK2, RV2)]) -> OV + Send + Sync + 'static>(
        self,
        f: F,
    ) -> (plan: TwoLeftJoinMappedPlan<Self, LK, MV, RK2, RV2, OV, DirectJoinProjection<F>>)
        ensures
            plan.plan == self,
            plan.map_second == DirectJoinProjection(f),
            rows_closure::<LK, MV, RK2, RV2, OV, F>(f) ==> rows_closure_known::<
                LK,
                MV,
                RK2,
                RV2,
                OV,
                F,
            >(f) && JoinProjection::<LK, MV, RK2, RV2, OV>::lawful(&plan.map_second),
    {
        proof {
            if rows_closure::<LK, MV, RK2, RV2, OV, F>(f) {
                rows_closure_laws::<LK, MV, RK2, RV2, OV, F>(f);
            }
        }
        TwoLeftJoinMappedPlan {
            plan: self,
            map_second: DirectJoinProjection(f),
            types: PhantomData,
        }
    }
}

impl<
    L,
    R1,
    R2,
    LK: MapKey,
    LV: CellValue,
    RK1: MapKey,
    RV1: CellValue,
    JK1: MapKey,
    MV: CellValue,
    RK2: MapKey,
    RV2: CellValue,
    JK2: MapKey,
    OV: CellValue,
    FL1: RowFn<LK, LV, JK1>,
    FR1: RightJoinKey<RK1, RV1, JK1>,
    FM1: JoinProjection<LK, LV, RK1, RV1, MV>,
    FL2: RowFn<LK, MV, JK2>,
    FR2: RightJoinKey<RK2, RV2, JK2>,
    FM2: JoinProjection<LK, MV, RK2, RV2, OV>,
> TwoLeftJoinMappedPlan<
    TwoLeftJoinPlan<L, R1, R2, LK, LV, RK1, RV1, JK1, MV, RK2, RV2, JK2, FL1, FR1, FM1, FL2, FR2>,
    LK,
    MV,
    RK2,
    RV2,
    OV,
    FM2,
> {
    /// The three plans, the two joins to put behind them, and the order in which the plans are to be
    /// followed.
    pub fn build_into(
        self,
        pool: Option<&WorkerPool>,
    ) -> (built: (
        L,
        R1,
        R2,
        TwoStageKernel<
            LK,
            LV,
            RK1,
            RV1,
            JK1,
            MV,
            RK2,
            RV2,
            JK2,
            OV,
            FL1,
            FR1,
            JoinProjectionProject<FM1>,
            FL2,
            FR2,
            JoinProjectionProject<FM2>,
        >,
        RootRegistrationOrder,
    ))
        requires
            pure2::<LK, LV, JK1, FL1>(self.plan.left_key1),
            self.plan.right_key1.lawful(),
            self.plan.map_first.lawful(),
            pure2::<LK, MV, JK2, FL2>(self.plan.left_key2),
            self.plan.right_key2.lawful(),
            self.map_second.lawful(),
        ensures
            built.0 == self.plan.left,
            built.1 == self.plan.right1,
            built.2 == self.plan.right2,
            built.3.sound(),
            built.3.shard_count == pool_shards(pool),
            built.3.config == (TwoStageConfig {
                left_key1: self.plan.left_key1,
                right_key1: self.plan.right_key1,
                project1: JoinProjectionProject(self.plan.map_first),
                left_key2: self.plan.left_key2,
                right_key2: self.plan.right_key2,
                project2: JoinProjectionProject(self.map_second),
            }),
            built.3.left1() == empty_side::<LK::Model, LV::Model, JK1::Model>(),
            built.3.right1() == empty_side::<RK1::Model, RV1::Model, JK1::Model>(),
            built.3.right2() == empty_side::<RK2::Model, RV2::Model, JK2::Model>(),
            built.4 == RootRegistrationOrder::LeftThenRights,
    {
        let (kernel, order) = install_two_keyed_join_runtime_via_query(
            self.plan.left_key1,
            self.plan.right_key1,
            JoinProjectionProject(self.plan.map_first),
            self.plan.left_key2,
            self.plan.right_key2,
            JoinProjectionProject(self.map_second),
            pool,
        );
        (self.plan.left, self.plan.right1, self.plan.right2, kernel, order)
    }
}

impl<
    L: PreservesMapKey<LK>,
    R1,
    R2,
    LK: MapKey,
    LV: CellValue,
    RK1: MapKey,
    RV1: CellValue,
    JK1: MapKey,
    MV: CellValue,
    RK2: MapKey,
    RV2: CellValue,
    JK2: MapKey,
    OV: CellValue,
    FL1: RowFn<LK, LV, JK1>,
    FR1: RightJoinKey<RK1, RV1, JK1>,
    FM1: JoinProjection<LK, LV, RK1, RV1, MV>,
    FL2: RowFn<LK, MV, JK2>,
    FR2: RightJoinKey<RK2, RV2, JK2>,
    FM2: JoinProjection<LK, MV, RK2, RV2, OV>,
> TwoLeftJoinMappedPlan<
    TwoLeftJoinPlan<L, R1, R2, LK, LV, RK1, RV1, JK1, MV, RK2, RV2, JK2, FL1, FR1, FM1, FL2, FR2>,
    LK,
    MV,
    RK2,
    RV2,
    OV,
    FM2,
> {
    /// Puts a third left join behind the two, in a region of joins.
    pub fn left_join_by<
        R3: MapQuery<Key = RK3, Value = RV3>,
        RK3: MapKey,
        RV3: CellValue,
        JK3: MapKey,
        FL3: Fn(&LK, &OV) -> JK3 + Send + Sync + 'static,
        FR3: Fn(&RK3, &RV3) -> JK3 + Send + Sync + 'static,
    >(self, right: R3, left_key: FL3, right_key: FR3) -> (region: JoinRegion<
        L,
        JCons<
            JoinStage<R1, LK, LV, RK1, RV1, JK1, MV, FL1, FR1, JoinProjectionProject<FM1>>,
            JCons<
                JoinStage<R2, LK, MV, RK2, RV2, JK2, OV, FL2, FR2, JoinProjectionProject<FM2>>,
                JCons<
                    JoinStage<
                        R3,
                        LK,
                        OV,
                        RK3,
                        RV3,
                        JK3,
                        (OV, Vec<RV3>),
                        FL3,
                        RequiredRightKey<FR3>,
                        DirectProject<Collected>,
                    >,
                    JNil,
                >,
            >,
        >,
        LK,
        LV,
    >)
        ensures
            region.left == self.plan.left,
            region.stages == (JCons {
                head: JoinStage {
                    right: self.plan.right1,
                    left_key: self.plan.left_key1,
                    right_key: self.plan.right_key1,
                    project: JoinProjectionProject(self.plan.map_first),
                    index_policy: OwnedIndex,
                    types: region.stages.head.types,
                },
                tail: JCons {
                    head: JoinStage {
                        right: self.plan.right2,
                        left_key: self.plan.left_key2,
                        right_key: self.plan.right_key2,
                        project: JoinProjectionProject(self.map_second),
                        index_policy: OwnedIndex,
                        types: region.stages.tail.head.types,
                    },
                    tail: JCons {
                        head: JoinStage {
                            right,
                            left_key,
                            right_key: RequiredRightKey(right_key),
                            project: DirectProject(Collected),
                            index_policy: OwnedIndex,
                            types: region.stages.tail.tail.head.types,
                        },
                        tail: JNil,
                    },
                },
            }),
    {
        let plan = self.plan;
        JoinRegion::new(
            plan.left,
            JCons {
                head: JoinStage::new(
                    plan.right1,
                    plan.left_key1,
                    plan.right_key1,
                    JoinProjectionProject(plan.map_first),
                ),
                tail: JCons {
                    head: JoinStage::new(
                        plan.right2,
                        plan.left_key2,
                        plan.right_key2,
                        JoinProjectionProject(self.map_second),
                    ),
                    tail: JCons {
                        head: JoinStage::new(
                            right,
                            left_key,
                            RequiredRightKey(right_key),
                            DirectProject(Collected),
                        ),
                        tail: JNil,
                    },
                },
            },
        )
    }
}

impl<
    L: PreservesMapKey<LK>,
    R1,
    LK: MapKey,
    LV: CellValue,
    RK1: MapKey,
    RV1: CellValue,
    JK1: MapKey,
    MV: CellValue,
    FL1: RowFn<LK, LV, JK1>,
    FR1: RightJoinKey<RK1, RV1, JK1>,
    FM1: RowFn<LK, (LV, Vec<RV1>), MV>,
> MapValuesPlan<LeftJoinPlan<L, R1, LK, LV, RK1, RV1, JK1, FL1, FR1>, LK, (LV, Vec<RV1>), MV, FM1> {
    /// Puts a second left join behind the first, in one runtime.
    pub fn left_join_by<
        R2: MapQuery<Key = RK2, Value = RV2>,
        RK2: MapKey,
        RV2: CellValue,
        JK2: MapKey,
        FL2: Fn(&LK, &MV) -> JK2 + Send + Sync + 'static,
        FR2: Fn(&RK2, &RV2) -> JK2 + Send + Sync + 'static,
    >(self, right: R2, left_key: FL2, right_key: FR2) -> (plan: TwoLeftJoinPlan<
        L,
        R1,
        R2,
        LK,
        LV,
        RK1,
        RV1,
        JK1,
        MV,
        RK2,
        RV2,
        JK2,
        FL1,
        FR1,
        TupleJoinProjection<FM1>,
        FL2,
        RequiredRightKey<FR2>,
    >)
        ensures
            plan.left == self.source.left,
            plan.right1 == self.source.right,
            plan.right2 == right,
            plan.left_key1 == self.source.left_key,
            plan.right_key1 == self.source.right_key,
            plan.map_first == TupleJoinProjection(self.f),
            plan.left_key2 == left_key,
            plan.right_key2 == RequiredRightKey(right_key),
            pure2::<LK, (LV, Vec<RV1>), MV, FM1>(self.f) ==> JoinProjection::<LK, LV, RK1, RV1, MV>::lawful(
                &plan.map_first,
            ),
            row_closure::<LK, MV, JK2, FL2>(left_key) ==> closure_known::<LK, MV, JK2, FL2>(left_key),
            row_closure::<RK2, RV2, JK2, FR2>(right_key) ==> closure_known::<RK2, RV2, JK2, FR2>(
                right_key,
            ) && RightJoinKey::<RK2, RV2, JK2>::lawful(&plan.right_key2),
    {
        proof {
            if row_closure::<LK, MV, JK2, FL2>(left_key) {
                closure_laws::<LK, MV, JK2, FL2>(left_key);
            }
            if row_closure::<RK2, RV2, JK2, FR2>(right_key) {
                closure_laws::<RK2, RV2, JK2, FR2>(right_key);
            }
        }
        TwoLeftJoinPlan {
            left: self.source.left,
            right1: self.source.right,
            right2: right,
            left_key1: self.source.left_key,
            right_key1: self.source.right_key,
            map_first: TupleJoinProjection(self.f),
            left_key2: left_key,
            right_key2: RequiredRightKey(right_key),
            types: PhantomData,
        }
    }
}

impl<
    L: PreservesMapKey<LK>,
    R1,
    LK: MapKey,
    LV: CellValue,
    RK1: MapKey,
    RV1: CellValue,
    JK1: MapKey,
    MV: CellValue,
    FL1: RowFn<LK, LV, JK1>,
    FR1: RightJoinKey<RK1, RV1, JK1>,
    FM1: RowsFn<LK, LV, RK1, RV1, MV>,
> JoinedValuesPlan<L, R1, LK, LV, RK1, RV1, JK1, MV, FL1, FR1, FM1> {
    /// Puts a second left join behind the first, in one runtime.
    pub fn left_join_by<
        R2: MapQuery<Key = RK2, Value = RV2>,
        RK2: MapKey,
        RV2: CellValue,
        JK2: MapKey,
        FL2: Fn(&LK, &MV) -> JK2 + Send + Sync + 'static,
        FR2: Fn(&RK2, &RV2) -> JK2 + Send + Sync + 'static,
    >(self, right: R2, left_key: FL2, right_key: FR2) -> (plan: TwoLeftJoinPlan<
        L,
        R1,
        R2,
        LK,
        LV,
        RK1,
        RV1,
        JK1,
        MV,
        RK2,
        RV2,
        JK2,
        FL1,
        FR1,
        DirectJoinProjection<FM1>,
        FL2,
        RequiredRightKey<FR2>,
    >)
        ensures
            plan.left == self.join.left,
            plan.right1 == self.join.right,
            plan.right2 == right,
            plan.left_key1 == self.join.left_key,
            plan.right_key1 == self.join.right_key,
            plan.map_first == DirectJoinProjection(self.projection),
            plan.left_key2 == left_key,
            plan.right_key2 == RequiredRightKey(right_key),
            pure_rows::<LK, LV, RK1, RV1, MV, FM1>(self.projection) ==> JoinProjection::<LK, LV, RK1, RV1, MV>::lawful(
                &plan.map_first,
            ),
            row_closure::<LK, MV, JK2, FL2>(left_key) ==> closure_known::<LK, MV, JK2, FL2>(left_key),
            row_closure::<RK2, RV2, JK2, FR2>(right_key) ==> closure_known::<RK2, RV2, JK2, FR2>(
                right_key,
            ) && RightJoinKey::<RK2, RV2, JK2>::lawful(&plan.right_key2),
    {
        proof {
            if row_closure::<LK, MV, JK2, FL2>(left_key) {
                closure_laws::<LK, MV, JK2, FL2>(left_key);
            }
            if row_closure::<RK2, RV2, JK2, FR2>(right_key) {
                closure_laws::<RK2, RV2, JK2, FR2>(right_key);
            }
        }
        TwoLeftJoinPlan {
            left: self.join.left,
            right1: self.join.right,
            right2: right,
            left_key1: self.join.left_key,
            right_key1: self.join.right_key,
            map_first: DirectJoinProjection(self.projection),
            left_key2: left_key,
            right_key2: RequiredRightKey(right_key),
            types: PhantomData,
        }
    }
}

impl<L: PreservesMapKey<LK>, R1, R2, LK: MapKey, LV: CellValue, RK1: MapKey, RV1: CellValue, JK1: MapKey, MV1: CellValue, RK2: MapKey, RV2: CellValue, JK2: MapKey, MV2: CellValue, FL1: RowFn<LK, LV, JK1>, FR1: RightJoinKey<RK1, RV1, JK1>, FM1: RowsFn<LK, LV, RK1, RV1, MV1>, FL2: RowFn<LK, MV1, JK2>, FR2: RightJoinKey<RK2, RV2, JK2>, FM2: RowsFn<LK, MV1, RK2, RV2, MV2>, Rel1, Rel2> RelationPlan<
    JoinedValuesPlan<
        RelationPlan<JoinedValuesPlan<L, R1, LK, LV, RK1, RV1, JK1, MV1, FL1, FR1, FM1>, Rel1>,
        R2,
        LK,
        MV1,
        RK2,
        RV2,
        JK2,
        MV2,
        FL2,
        FR2,
        FM2,
    >,
    Rel2,
> {
    /// Puts a third left join by a relationship behind two such joins, in a region of joins.
    pub fn left_join_fk<Rel3: ForeignKeyRelation, R3: MapQuery<Value = Rel3::Child>>(self, right: R3) -> (region:
        JoinRegion<
        L,
        JCons<
            JoinStage<
                R1,
                LK,
                LV,
                RK1,
                RV1,
                JK1,
                MV1,
                FL1,
                FR1,
                JoinProjectionProject<DirectJoinProjection<FM1>>,
                SharedRelationIndex<Rel1>,
            >,
            JCons<
                JoinStage<
                    R2,
                    LK,
                    MV1,
                    RK2,
                    RV2,
                    JK2,
                    MV2,
                    FL2,
                    FR2,
                    JoinProjectionProject<DirectJoinProjection<FM2>>,
                    SharedRelationIndex<Rel2>,
                >,
                JCons<
                    JoinStage<
                        R3,
                        LK,
                        MV2,
                        R3::Key,
                        Rel3::Child,
                        LK,
                        (MV2, Vec<Rel3::Child>),
                        OwnKey,
                        OptionalRightKey<ParentKey<Rel3>>,
                        DirectProject<Collected>,
                        SharedRelationIndex<Rel3>,
                    >,
                    JNil,
                >,
            >,
        >,
        LK,
        LV,
    >) where Rel3::ForeignKey: IdFor<Rel3::Parent, MapKey = LK>
        ensures
            region.left == self.plan.join.left.plan.join.left,
            region.stages == (JCons {
                head: JoinStage {
                    right: self.plan.join.left.plan.join.right,
                    left_key: self.plan.join.left.plan.join.left_key,
                    right_key: self.plan.join.left.plan.join.right_key,
                    project: JoinProjectionProject(
                        DirectJoinProjection(self.plan.join.left.plan.projection),
                    ),
                    index_policy: SharedRelationIndex::<Rel1>(PhantomData),
                    types: region.stages.head.types,
                },
                tail: JCons {
                    head: JoinStage {
                        right: self.plan.join.right,
                        left_key: self.plan.join.left_key,
                        right_key: self.plan.join.right_key,
                        project: JoinProjectionProject(DirectJoinProjection(self.plan.projection)),
                        index_policy: SharedRelationIndex::<Rel2>(PhantomData),
                        types: region.stages.tail.head.types,
                    },
                    tail: JCons {
                        head: JoinStage {
                            right,
                            left_key: OwnKey,
                            right_key: OptionalRightKey(ParentKey::<Rel3>(PhantomData)),
                            project: DirectProject(Collected),
                            index_policy: SharedRelationIndex::<Rel3>(PhantomData),
                            types: region.stages.tail.tail.head.types,
                        },
                        tail: JNil,
                    },
                },
            }),
    {
        let second = self.plan;
        let first = second.join.left.plan;
        let first_stage = JoinStage::new(
            first.join.right,
            first.join.left_key,
            first.join.right_key,
            JoinProjectionProject(DirectJoinProjection(first.projection)),
        ).with_index_policy(SharedRelationIndex::<Rel1>::new());
        let second_stage = JoinStage::new(
            second.join.right,
            second.join.left_key,
            second.join.right_key,
            JoinProjectionProject(DirectJoinProjection(second.projection)),
        ).with_index_policy(SharedRelationIndex::<Rel2>::new());
        let third_stage = JoinStage::new(
            right,
            OwnKey,
            OptionalRightKey(ParentKey::<Rel3>(PhantomData)),
            DirectProject(Collected),
        ).with_index_policy(SharedRelationIndex::<Rel3>::new());
        JoinRegion::new(
            first.join.left,
            JCons {
                head: first_stage,
                tail: JCons { head: second_stage, tail: JCons { head: third_stage, tail: JNil } },
            },
        )
    }
}

/// What the rows of a left join are: each left row once, with the values of the right rows that have
/// its join key, in the order in which they got it.
pub proof fn left_join_rows<
    LK: MapKey,
    LV: CellValue,
    RK: MapKey,
    RV: CellValue,
    JK: MapKey,
    FL: RowFn<LK, LV, JK>,
    FR: RightJoinKey<RK, RV, JK>,
>(
    node: KeyedJoinNode<LK, LV, RK, RV, JK, (LV, Vec<RV>), FL, FR, DirectProject<Collected>>,
    k: LK::Model,
)
    requires
        node.wf(),
    ensures
        lookup(node.output(), k) == (match lookup(node.join.half.left().rows, k) {
            Some(v) => Some(
                (v, row_values(node.right@.matches_of(node.join.half.left().keys[k]))),
            ),
            None => None,
        }),
{
    joined_lookup(node.join.half.left(), node.right@, node.join.proj::<RK, RV>(), k);
}

/// A left join of two sources: where its sides hold the rows of two maps, each row of the left map is
/// there once, with the values of `matched`, which are the rows of the right map that have its join
/// key, each of them once.
pub proof fn left_join_of_sources<
    LK: MapKey,
    LV: CellValue,
    RK: MapKey,
    RV: CellValue,
    JK: MapKey,
    FL: RowFn<LK, LV, JK>,
    FR: RightJoinKey<RK, RV, JK>,
>(
    node: KeyedJoinNode<LK, LV, RK, RV, JK, (LV, Vec<RV>), FL, FR, DirectProject<Collected>>,
    left: Map<LK::Model, LV::Model>,
    right: Map<RK::Model, RV::Model>,
    k: LK::Model,
) -> (matched: Seq<(RK::Model, RV::Model)>)
    requires
        node.wf(),
        node.join.half.left().tracks(left, node.join.lkey()),
        node.right@.tracks(right, node.join.rkey::<RK, RV>()),
    ensures
        lookup(node.output(), k) == (match lookup(left, k) {
            Some(v) => Some((v, row_values(matched))),
            None => None,
        }),
        entry_keys(matched).no_duplicates(),
        left.contains_key(k) ==> forall|r: RK::Model| #[trigger]
            lookup(entries_map(matched), r) == (if right.contains_key(r) && (node.join.rkey::<
                RK,
                RV,
            >())(r, right[r]) == (node.join.lkey())(k, left[k]) {
                Some(right[r])
            } else {
                None
            }),
{
    let side = node.join.half.left();
    let rights = node.right@;
    let lkey = node.join.lkey();
    let rkey = node.join.rkey::<RK, RV>();
    node.right.side_wf();
    left_join_rows(node, k);
    assert(lookup(side.rows, k) == lookup(left, k));
    if left.contains_key(k) {
        let j = side.keys[k];
        let matched = rights.matches_of(j);
        assert(lkey(k, side.rows[k]) == Some(j));
        assert forall|r: RK::Model| #[trigger]
            lookup(entries_map(matched), r) == (if right.contains_key(r) && rkey(r, right[r])
                == lkey(k, left[k]) {
                Some(right[r])
            } else {
                None
            }) by {
            rights.matches_lookup(j, r);
            let _ = lookup(rights.rows, r);
            let _ = lookup(right, r);
            if rights.rows.contains_key(r) {
                assert(rkey(r, rights.rows[r]) == Some(rights.keys[r]));
            }
        }
        assert(entry_keys(matched) =~= rights.members_of(j));
        matched
    } else {
        let none = Seq::<(RK::Model, RV::Model)>::empty();
        assert(entry_keys(none) =~= Seq::empty());
        none
    }
}

/// Left joins: each left row once, with the values of the right rows that match it.
pub trait LeftJoinExt<K: MapKey, V: CellValue>: MapQuery<Key = K, Value = V> {
    /// Joins rows with the same key.
    fn left_join<R: MapQuery<Key = K, Value = RV>, RV: CellValue>(self, right: R) -> (plan: LeftJoinPlan<
        Self,
        R,
        K,
        V,
        K,
        RV,
        K,
        OwnKey,
        RequiredRightKey<OwnKey>,
    >)
        ensures
            plan.left == self,
            plan.right == right,
            plan.right_key == RequiredRightKey(OwnKey),
    {
        LeftJoinPlan {
            left: self,
            right,
            left_key: OwnKey,
            right_key: RequiredRightKey(OwnKey),
            types: PhantomData,
        }
    }

    /// Joins rows with the rows that have them as parents by a relationship. A right row without a
    /// parent matches no left row.
    fn left_join_fk<Rel: ForeignKeyRelation, R: MapQuery<Value = Rel::Child>>(self, right: R) -> (plan: RelationPlan<
        LeftJoinPlan<
            Self,
            R,
            K,
            V,
            R::Key,
            Rel::Child,
            K,
            OwnKey,
            OptionalRightKey<ParentKey<Rel>>,
        >,
        Rel,
    >) where Rel::ForeignKey: IdFor<Rel::Parent, MapKey = K>
        ensures
            plan.plan.left == self,
            plan.plan.right == right,
            plan.plan.right_key == OptionalRightKey(ParentKey::<Rel>(PhantomData)),
    {
        RelationPlan::new(
            LeftJoinPlan {
                left: self,
                right,
                left_key: OwnKey,
                right_key: OptionalRightKey(ParentKey::<Rel>(PhantomData)),
                types: PhantomData,
            },
        )
    }

    /// Joins rows by keys that functions make.
    fn left_join_by<
        R: MapQuery<Key = RK, Value = RV>,
        RK: MapKey,
        RV: CellValue,
        JK: MapKey,
        FL: Fn(&K, &V) -> JK + Send + Sync + 'static,
        FR: Fn(&RK, &RV) -> JK + Send + Sync + 'static,
    >(self, right: R, left_key: FL, right_key: FR) -> (plan: LeftJoinPlan<
        Self,
        R,
        K,
        V,
        RK,
        RV,
        JK,
        FL,
        RequiredRightKey<FR>,
    >)
        ensures
            plan.left == self,
            plan.right == right,
            plan.left_key == left_key,
            plan.right_key == RequiredRightKey(right_key),
            row_closure::<K, V, JK, FL>(left_key) ==> closure_known::<K, V, JK, FL>(left_key),
            row_closure::<RK, RV, JK, FR>(right_key) ==> closure_known::<RK, RV, JK, FR>(right_key)
                && RightJoinKey::<RK, RV, JK>::lawful(&plan.right_key),
            forall|k: RK::Model, v: RV::Model| #[trigger]
                RightJoinKey::<RK, RV, JK>::key_of(&plan.right_key, k, v) == Some(
                    image2::<RK, RV, JK, FR>(right_key, k, v),
                ),
    {
        proof {
            if row_closure::<K, V, JK, FL>(left_key) {
                closure_laws::<K, V, JK, FL>(left_key);
            }
            if row_closure::<RK, RV, JK, FR>(right_key) {
                closure_laws::<RK, RV, JK, FR>(right_key);
            }
        }
        LeftJoinPlan {
            left: self,
            right,
            left_key,
            right_key: RequiredRightKey(right_key),
            types: PhantomData,
        }
    }
}

impl<K: MapKey, V: CellValue, M: MapQuery<Key = K, Value = V>> LeftJoinExt<K, V> for M {

}

} // verus!
