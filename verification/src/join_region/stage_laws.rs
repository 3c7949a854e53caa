//! What goes through a list of stages: with its last stage mapped, and with a stage put behind it.
use vstd::prelude::*;

use crate::diff::Change;
use crate::foreign_key::{right_key, RightJoinKey};
use crate::func::{image2, RowFn};
use crate::index::{side_of, Side};
use crate::join_region::declaration::{
    IndexPolicy, JCons, JNil, JoinStage, MapLast, Push, StageProject,
};
use crate::join_region::plan::SplitStages;
use crate::join_region::sources::{SourcedStages, StageSources};
use crate::join_region::stage_runtime::{RuntimeStages, StageRights};
use crate::query::MapQuery;
use crate::value::{CellValue, MapKey};

verus! {

/// What the stages of a region make of one row.
pub open spec fn row_through<Stages: SplitStages<K, Input>, K: MapKey, Input: CellValue>(
    stages: Stages,
    rights: <Stages::Runtime as RuntimeStages<K, Input>>::Rights,
    key: K::Model,
    input: Input::Model,
) -> Option<<<Stages::Runtime as RuntimeStages<K, Input>>::Output as CellValue>::Model> {
    stages.runtime().through(rights, key, input)
}

/// Mapping what the last stage of a list gives maps what goes through the whole list.
pub trait MapsThrough<K: MapKey, Input: CellValue, Mid: CellValue, F, Out: CellValue>: SplitStages<
    K,
    Input,
> + MapLast<F, Out> where
    F: RowFn<K, Mid, Out>,
    <Self as SplitStages<K, Input>>::Runtime: RuntimeStages<K, Input, Output = Mid>,
    <Self as MapLast<F, Out>>::Stages: SplitStages<K, Input>,
    <<Self as MapLast<F, Out>>::Stages as SplitStages<K, Input>>::Runtime: RuntimeStages<
        K,
        Input,
        Output = Out,
        Rights = <<Self as SplitStages<K, Input>>::Runtime as RuntimeStages<K, Input>>::Rights,
    >,
 {
    proof fn maps_through(
        self,
        map: F,
        rights: <<Self as SplitStages<K, Input>>::Runtime as RuntimeStages<K, Input>>::Rights,
        key: K::Model,
        input: Input::Model,
    )
        ensures
            row_through::<<Self as MapLast<F, Out>>::Stages, K, Input>(
                self.mapped_last(map),
                rights,
                key,
                input,
            ) == (match row_through::<Self, K, Input>(self, rights, key, input) {
                Some(row) => Some(image2::<K, Mid, Out, F>(map, key, row)),
                None => None,
            }),
    ;
}

impl<
    Right: MapQuery<Key = RK, Value = RV>,
    K: MapKey,
    Input: CellValue,
    RK: MapKey,
    RV: CellValue,
    JK: MapKey,
    Mid: CellValue,
    FL: RowFn<K, Input, JK>,
    FR: RightJoinKey<RK, RV, JK>,
    P: StageProject<K, Input, RK, RV, Mid>,
    Policy: IndexPolicy,
    F: RowFn<K, Mid, Out>,
    Out: CellValue,
> MapsThrough<K, Input, Mid, F, Out> for JCons<
    JoinStage<Right, K, Input, RK, RV, JK, Mid, FL, FR, P, Policy>,
    JNil,
> {
    proof fn maps_through(
        self,
        map: F,
        rights: <<Self as SplitStages<K, Input>>::Runtime as RuntimeStages<K, Input>>::Rights,
        key: K::Model,
        input: Input::Model,
    ) {
    }
}

impl<
    Right: MapQuery<Key = RK, Value = RV>,
    K: MapKey,
    Input: CellValue,
    RK: MapKey,
    RV: CellValue,
    JK: MapKey,
    Next: CellValue,
    FL: RowFn<K, Input, JK>,
    FR: RightJoinKey<RK, RV, JK>,
    P: StageProject<K, Input, RK, RV, Next>,
    Policy: IndexPolicy,
    TailHead,
    TailTail,
    Mid: CellValue,
    F: RowFn<K, Mid, Out>,
    Out: CellValue,
> MapsThrough<K, Input, Mid, F, Out> for JCons<
    JoinStage<Right, K, Input, RK, RV, JK, Next, FL, FR, P, Policy>,
    JCons<TailHead, TailTail>,
> where
    JCons<TailHead, TailTail>: MapsThrough<K, Next, Mid, F, Out>,
    <JCons<TailHead, TailTail> as SplitStages<K, Next>>::Runtime: RuntimeStages<
        K,
        Next,
        Output = Mid,
    >,
    <JCons<TailHead, TailTail> as MapLast<F, Out>>::Stages: SplitStages<K, Next>,
    <<JCons<TailHead, TailTail> as MapLast<F, Out>>::Stages as SplitStages<K, Next>>::Runtime: RuntimeStages<
        K,
        Next,
        Output = Out,
        Rights = <<JCons<TailHead, TailTail> as SplitStages<K, Next>>::Runtime as RuntimeStages<
            K,
            Next,
        >>::Rights,
    >,
 {
    proof fn maps_through(
        self,
        map: F,
        rights: <<Self as SplitStages<K, Input>>::Runtime as RuntimeStages<K, Input>>::Rights,
        key: K::Model,
        input: Input::Model,
    ) {
        let head = self.runtime().head;
        let j = image2::<K, Input, JK, FL>(head.left_key, key, input);
        match head.project.projected(key, input, rights.head@.matches_of(j)) {
            Some(next) => {
                self.tail.maps_through(map, rights.tail, key, next);
            },
            None => {},
        }
    }
}

/// A stage behind the last one of a list works on what goes through the list: the region then gives
/// what joining the rows of the shorter region gives.
pub trait JoinsThrough<
    Right: MapQuery<Key = RK, Value = RV>,
    K: MapKey,
    Input: CellValue,
    Mid: CellValue,
    RK: MapKey,
    RV: CellValue,
    JK: MapKey,
    Out: CellValue,
    FL: RowFn<K, Mid, JK>,
    FR: RightJoinKey<RK, RV, JK>,
    P: StageProject<K, Mid, RK, RV, Out>,
    Policy: IndexPolicy,
>: SplitStages<K, Input> + Push<
    JoinStage<Right, K, Mid, RK, RV, JK, Out, FL, FR, P, Policy>,
> where
    <Self as SplitStages<K, Input>>::Runtime: RuntimeStages<K, Input, Output = Mid>,
    <Self as Push<JoinStage<Right, K, Mid, RK, RV, JK, Out, FL, FR, P, Policy>>>::Output: SplitStages<
        K,
        Input,
    >,
    <<Self as Push<JoinStage<Right, K, Mid, RK, RV, JK, Out, FL, FR, P, Policy>>>::Output as SplitStages<
        K,
        Input,
    >>::Runtime: RuntimeStages<K, Input, Output = Out>,
 {
    /// The right rows of the stages of the shorter list.
    spec fn front(
        rights: <<<Self as Push<
            JoinStage<Right, K, Mid, RK, RV, JK, Out, FL, FR, P, Policy>,
        >>::Output as SplitStages<K, Input>>::Runtime as RuntimeStages<K, Input>>::Rights,
    ) -> <<Self as SplitStages<K, Input>>::Runtime as RuntimeStages<K, Input>>::Rights;

    /// The right rows of the stage behind the list.
    spec fn behind(
        rights: <<<Self as Push<
            JoinStage<Right, K, Mid, RK, RV, JK, Out, FL, FR, P, Policy>,
        >>::Output as SplitStages<K, Input>>::Runtime as RuntimeStages<K, Input>>::Rights,
    ) -> Side<RK::Model, RV::Model, JK::Model>;

    /// The sources of the stages of the shorter list.
    spec fn front_sources(
        sources: <<<Self as Push<
            JoinStage<Right, K, Mid, RK, RV, JK, Out, FL, FR, P, Policy>,
        >>::Output as SplitStages<K, Input>>::Runtime as SourcedStages<K, Input>>::Sources,
    ) -> <<Self as SplitStages<K, Input>>::Runtime as SourcedStages<K, Input>>::Sources;

    /// What the source of the stage behind the list has told.
    spec fn behind_source(
        sources: <<<Self as Push<
            JoinStage<Right, K, Mid, RK, RV, JK, Out, FL, FR, P, Policy>,
        >>::Output as SplitStages<K, Input>>::Runtime as SourcedStages<K, Input>>::Sources,
    ) -> Seq<Change<RK::Model, RV::Model>>;

    /// Where the stages hold the rows of their sources, those of the shorter list do, and the one
    /// behind it does.
    proof fn sourced_through(
        self,
        stage: JoinStage<Right, K, Mid, RK, RV, JK, Out, FL, FR, P, Policy>,
        rights: <<<Self as Push<
            JoinStage<Right, K, Mid, RK, RV, JK, Out, FL, FR, P, Policy>,
        >>::Output as SplitStages<K, Input>>::Runtime as RuntimeStages<K, Input>>::Rights,
        sources: <<<Self as Push<
            JoinStage<Right, K, Mid, RK, RV, JK, Out, FL, FR, P, Policy>,
        >>::Output as SplitStages<K, Input>>::Runtime as SourcedStages<K, Input>>::Sources,
    )
        requires
            self.pushed(stage).runtime().sourced(rights, sources),
        ensures
            self.runtime().sourced(Self::front(rights), Self::front_sources(sources)),
            Self::behind(rights) == side_of(
                Self::behind_source(sources),
                right_key::<RK, RV, JK, FR>(stage.right_key),
            ),
    ;

    proof fn joins_through(
        self,
        stage: JoinStage<Right, K, Mid, RK, RV, JK, Out, FL, FR, P, Policy>,
        rights: <<<Self as Push<
            JoinStage<Right, K, Mid, RK, RV, JK, Out, FL, FR, P, Policy>,
        >>::Output as SplitStages<K, Input>>::Runtime as RuntimeStages<K, Input>>::Rights,
        key: K::Model,
        input: Input::Model,
    )
        ensures
            row_through::<
                <Self as Push<JoinStage<Right, K, Mid, RK, RV, JK, Out, FL, FR, P, Policy>>>::Output,
                K,
                Input,
            >(self.pushed(stage), rights, key, input) == (match row_through::<Self, K, Input>(
                self,
                Self::front(rights),
                key,
                input,
            ) {
                Some(row) => stage.project.projected(
                    key,
                    row,
                    Self::behind(rights).matches_of(
                        image2::<K, Mid, JK, FL>(stage.left_key, key, row),
                    ),
                ),
                None => None,
            }),
    ;
}

impl<
    Right: MapQuery<Key = RK, Value = RV>,
    K: MapKey,
    Input: CellValue,
    RK: MapKey,
    RV: CellValue,
    JK: MapKey,
    Out: CellValue,
    FL: RowFn<K, Input, JK>,
    FR: RightJoinKey<RK, RV, JK>,
    P: StageProject<K, Input, RK, RV, Out>,
    Policy: IndexPolicy,
> JoinsThrough<Right, K, Input, Input, RK, RV, JK, Out, FL, FR, P, Policy> for JNil {
    open spec fn front(
        rights: <<<Self as Push<
            JoinStage<Right, K, Input, RK, RV, JK, Out, FL, FR, P, Policy>,
        >>::Output as SplitStages<K, Input>>::Runtime as RuntimeStages<K, Input>>::Rights,
    ) -> <<Self as SplitStages<K, Input>>::Runtime as RuntimeStages<K, Input>>::Rights {
        rights.tail
    }

    open spec fn behind(
        rights: <<<Self as Push<
            JoinStage<Right, K, Input, RK, RV, JK, Out, FL, FR, P, Policy>,
        >>::Output as SplitStages<K, Input>>::Runtime as RuntimeStages<K, Input>>::Rights,
    ) -> Side<RK::Model, RV::Model, JK::Model> {
        rights.head@
    }

    open spec fn front_sources(
        sources: <<<Self as Push<
            JoinStage<Right, K, Input, RK, RV, JK, Out, FL, FR, P, Policy>,
        >>::Output as SplitStages<K, Input>>::Runtime as SourcedStages<K, Input>>::Sources,
    ) -> <<Self as SplitStages<K, Input>>::Runtime as SourcedStages<K, Input>>::Sources {
        sources.tail
    }

    open spec fn behind_source(
        sources: <<<Self as Push<
            JoinStage<Right, K, Input, RK, RV, JK, Out, FL, FR, P, Policy>,
        >>::Output as SplitStages<K, Input>>::Runtime as SourcedStages<K, Input>>::Sources,
    ) -> Seq<Change<RK::Model, RV::Model>> {
        sources.head@
    }

    proof fn sourced_through(
        self,
        stage: JoinStage<Right, K, Input, RK, RV, JK, Out, FL, FR, P, Policy>,
        rights: <<<Self as Push<
            JoinStage<Right, K, Input, RK, RV, JK, Out, FL, FR, P, Policy>,
        >>::Output as SplitStages<K, Input>>::Runtime as RuntimeStages<K, Input>>::Rights,
        sources: <<<Self as Push<
            JoinStage<Right, K, Input, RK, RV, JK, Out, FL, FR, P, Policy>,
        >>::Output as SplitStages<K, Input>>::Runtime as SourcedStages<K, Input>>::Sources,
    ) {
    }

    proof fn joins_through(
        self,
        stage: JoinStage<Right, K, Input, RK, RV, JK, Out, FL, FR, P, Policy>,
        rights: <<<Self as Push<
            JoinStage<Right, K, Input, RK, RV, JK, Out, FL, FR, P, Policy>,
        >>::Output as SplitStages<K, Input>>::Runtime as RuntimeStages<K, Input>>::Rights,
        key: K::Model,
        input: Input::Model,
    ) {
    }
}

impl<
    HeadRight: MapQuery<Key = HeadRK, Value = HeadRV>,
    K: MapKey,
    Input: CellValue,
    HeadRK: MapKey,
    HeadRV: CellValue,
    HeadJK: MapKey,
    Next: CellValue,
    HeadFL: RowFn<K, Input, HeadJK>,
    HeadFR: RightJoinKey<HeadRK, HeadRV, HeadJK>,
    HeadP: StageProject<K, Input, HeadRK, HeadRV, Next>,
    HeadPolicy: IndexPolicy,
    Tail,
    Right: MapQuery<Key = RK, Value = RV>,
    Mid: CellValue,
    RK: MapKey,
    RV: CellValue,
    JK: MapKey,
    Out: CellValue,
    FL: RowFn<K, Mid, JK>,
    FR: RightJoinKey<RK, RV, JK>,
    P: StageProject<K, Mid, RK, RV, Out>,
    Policy: IndexPolicy,
> JoinsThrough<Right, K, Input, Mid, RK, RV, JK, Out, FL, FR, P, Policy> for JCons<
    JoinStage<
        HeadRight,
        K,
        Input,
        HeadRK,
        HeadRV,
        HeadJK,
        Next,
        HeadFL,
        HeadFR,
        HeadP,
        HeadPolicy,
    >,
    Tail,
> where
    Tail: JoinsThrough<Right, K, Next, Mid, RK, RV, JK, Out, FL, FR, P, Policy>,
    <Tail as SplitStages<K, Next>>::Runtime: RuntimeStages<K, Next, Output = Mid>,
    <Tail as Push<JoinStage<Right, K, Mid, RK, RV, JK, Out, FL, FR, P, Policy>>>::Output: SplitStages<
        K,
        Next,
    >,
    <<Tail as Push<JoinStage<Right, K, Mid, RK, RV, JK, Out, FL, FR, P, Policy>>>::Output as SplitStages<
        K,
        Next,
    >>::Runtime: RuntimeStages<K, Next, Output = Out>,
 {
    open spec fn front(
        rights: <<<Self as Push<
            JoinStage<Right, K, Mid, RK, RV, JK, Out, FL, FR, P, Policy>,
        >>::Output as SplitStages<K, Input>>::Runtime as RuntimeStages<K, Input>>::Rights,
    ) -> <<Self as SplitStages<K, Input>>::Runtime as RuntimeStages<K, Input>>::Rights {
        StageRights { head: rights.head, tail: Tail::front(rights.tail) }
    }

    open spec fn behind(
        rights: <<<Self as Push<
            JoinStage<Right, K, Mid, RK, RV, JK, Out, FL, FR, P, Policy>,
        >>::Output as SplitStages<K, Input>>::Runtime as RuntimeStages<K, Input>>::Rights,
    ) -> Side<RK::Model, RV::Model, JK::Model> {
        Tail::behind(rights.tail)
    }

    open spec fn front_sources(
        sources: <<<Self as Push<
            JoinStage<Right, K, Mid, RK, RV, JK, Out, FL, FR, P, Policy>,
        >>::Output as SplitStages<K, Input>>::Runtime as SourcedStages<K, Input>>::Sources,
    ) -> <<Self as SplitStages<K, Input>>::Runtime as SourcedStages<K, Input>>::Sources {
        StageSources { head: sources.head, tail: Tail::front_sources(sources.tail) }
    }

    open spec fn behind_source(
        sources: <<<Self as Push<
            JoinStage<Right, K, Mid, RK, RV, JK, Out, FL, FR, P, Policy>,
        >>::Output as SplitStages<K, Input>>::Runtime as SourcedStages<K, Input>>::Sources,
    ) -> Seq<Change<RK::Model, RV::Model>> {
        Tail::behind_source(sources.tail)
    }

    proof fn sourced_through(
        self,
        stage: JoinStage<Right, K, Mid, RK, RV, JK, Out, FL, FR, P, Policy>,
        rights: <<<Self as Push<
            JoinStage<Right, K, Mid, RK, RV, JK, Out, FL, FR, P, Policy>,
        >>::Output as SplitStages<K, Input>>::Runtime as RuntimeStages<K, Input>>::Rights,
        sources: <<<Self as Push<
            JoinStage<Right, K, Mid, RK, RV, JK, Out, FL, FR, P, Policy>,
        >>::Output as SplitStages<K, Input>>::Runtime as SourcedStages<K, Input>>::Sources,
    ) {
        self.tail.sourced_through(stage, rights.tail, sources.tail);
    }

    proof fn joins_through(
        self,
        stage: JoinStage<Right, K, Mid, RK, RV, JK, Out, FL, FR, P, Policy>,
        rights: <<<Self as Push<
            JoinStage<Right, K, Mid, RK, RV, JK, Out, FL, FR, P, Policy>,
        >>::Output as SplitStages<K, Input>>::Runtime as RuntimeStages<K, Input>>::Rights,
        key: K::Model,
        input: Input::Model,
    ) {
        let head = self.runtime().head;
        let j = image2::<K, Input, HeadJK, HeadFL>(head.left_key, key, input);
        match head.project.projected(key, input, rights.head@.matches_of(j)) {
            Some(next) => {
                self.tail.joins_through(stage, rights.tail, key, next);
            },
            None => {},
        }
    }
}

} // verus!
