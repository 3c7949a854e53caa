//! The right rows of a region, as its right sources have told them.
use vstd::prelude::*;

use crate::diff::Change;
use crate::foreign_key::RightJoinKey;
use crate::func::{image2, RowFn};
use crate::index::{empty_side, side_of};
use crate::join_region::declaration::{JCons, JNil, StageProject};
use crate::join_region::stage_runtime::{Here, RightRoot, RuntimeStages, StageConfig, There};
use crate::value::{CellValue, MapKey};

verus! {

/// Stages whose right rows are the rows of sources.
pub trait SourcedStages<K: MapKey, Input: CellValue>: RuntimeStages<K, Input> {
    /// What each right source has told.
    type Sources;

    /// Sources that have told nothing.
    spec fn silent() -> Self::Sources;

    /// Each stage holds the rows that its source has led to.
    spec fn sourced(&self, rights: Self::Rights, sources: Self::Sources) -> bool;

    /// What comes out of the stages for a row: each stage sees the rows of its source that have the
    /// join key of what it gets, in the order in which they got it.
    spec fn comes_out(&self, sources: Self::Sources, key: K::Model, input: Input::Model) -> Option<
        <Self::Output as CellValue>::Model,
    >;

    /// Stages that nothing was delivered to hold the rows of sources that have told nothing.
    proof fn sourced_none(&self, rights: Self::Rights)
        requires
            self.bare(rights),
        ensures
            self.sourced(rights, Self::silent()),
    ;

    /// What the stages make of a row is what comes out for it.
    proof fn through_sources(
        &self,
        rights: Self::Rights,
        sources: Self::Sources,
        key: K::Model,
        input: Input::Model,
    )
        requires
            self.sourced(rights, sources),
        ensures
            self.through(rights, key, input) == self.comes_out(sources, key, input),
    ;
}

impl<K: MapKey, Input: CellValue> SourcedStages<K, Input> for JNil {
    type Sources = ();

    open spec fn silent() -> () {
        ()
    }

    open spec fn sourced(&self, rights: (), sources: ()) -> bool {
        true
    }

    open spec fn comes_out(&self, sources: (), key: K::Model, input: Input::Model) -> Option<
        Input::Model,
    > {
        Some(input)
    }

    proof fn sourced_none(&self, rights: ()) {
    }

    proof fn through_sources(&self, rights: (), sources: (), key: K::Model, input: Input::Model) {
    }
}

/// What the right source of a stage has told, and those of the stages after it.
pub struct StageSources<RK: MapKey, RV: CellValue, Tail> {
    pub head: Ghost<Seq<Change<RK::Model, RV::Model>>>,
    pub tail: Tail,
}

impl<
    K: MapKey,
    Input: CellValue,
    RK: MapKey,
    RV: CellValue,
    JK: MapKey,
    Mid: CellValue,
    FL: RowFn<K, Input, JK>,
    FR: RightJoinKey<RK, RV, JK>,
    P: StageProject<K, Input, RK, RV, Mid>,
    Tail: SourcedStages<K, Mid>,
> SourcedStages<K, Input> for JCons<StageConfig<K, Input, RK, RV, JK, Mid, FL, FR, P>, Tail> {
    type Sources = StageSources<RK, RV, Tail::Sources>;

    open spec fn silent() -> Self::Sources {
        StageSources { head: Ghost(Seq::empty()), tail: Tail::silent() }
    }

    open spec fn sourced(&self, rights: Self::Rights, sources: Self::Sources) -> bool {
        &&& rights.head@ == side_of(sources.head@, self.rkey())
        &&& self.tail.sourced(rights.tail, sources.tail)
    }

    open spec fn comes_out(&self, sources: Self::Sources, key: K::Model, input: Input::Model) -> Option<
        <Self::Output as CellValue>::Model,
    > {
        let j = image2::<K, Input, JK, FL>(self.head.left_key, key, input);
        let matched = side_of(sources.head@, self.rkey()).matches_of(j);
        match self.head.project.projected(key, input, matched) {
            Some(mid) => self.tail.comes_out(sources.tail, key, mid),
            None => None,
        }
    }

    proof fn sourced_none(&self, rights: Self::Rights) {
        self.tail.sourced_none(rights.tail);
    }

    proof fn through_sources(
        &self,
        rights: Self::Rights,
        sources: Self::Sources,
        key: K::Model,
        input: Input::Model,
    ) {
        let j = image2::<K, Input, JK, FL>(self.head.left_key, key, input);
        match self.head.project.projected(key, input, rights.head@.matches_of(j)) {
            Some(mid) => {
                self.tail.through_sources(rights.tail, sources.tail, key, mid);
            },
            None => {},
        }
    }
}

/// The source of the right rows of one stage.
pub trait SourceAt<Location, K: MapKey, Input: CellValue, RK: MapKey, RV: CellValue>: RightRoot<
    Location,
    K,
    Input,
    RK,
    RV,
> + SourcedStages<K, Input> {
    /// The sources once this one has told more.
    spec fn telling(sources: Self::Sources, steps: Seq<Change<RK::Model, RV::Model>>) -> Self::Sources;

    /// A stage that follows what its source tells holds the rows that the source has led to, and the
    /// other stages hold those of theirs.
    proof fn sourced_run(
        &self,
        before: Self::Rights,
        sources: Self::Sources,
        steps: Seq<Change<RK::Model, RV::Model>>,
        after: Self::Rights,
    )
        requires
            self.sourced(before, sources),
            self.right_run(before, steps, after),
        ensures
            self.sourced(after, Self::telling(sources, steps)),
    ;
}

impl<
    K: MapKey,
    Input: CellValue,
    RK: MapKey,
    RV: CellValue,
    JK: MapKey,
    Mid: CellValue,
    FL: RowFn<K, Input, JK>,
    FR: RightJoinKey<RK, RV, JK>,
    P: StageProject<K, Input, RK, RV, Mid>,
    Tail: SourcedStages<K, Mid>,
> SourceAt<Here, K, Input, RK, RV> for JCons<
    StageConfig<K, Input, RK, RV, JK, Mid, FL, FR, P>,
    Tail,
> {
    open spec fn telling(
        sources: Self::Sources,
        steps: Seq<Change<RK::Model, RV::Model>>,
    ) -> Self::Sources {
        StageSources { head: Ghost(sources.head@ + steps), tail: sources.tail }
    }

    proof fn sourced_run(
        &self,
        before: Self::Rights,
        sources: Self::Sources,
        steps: Seq<Change<RK::Model, RV::Model>>,
        after: Self::Rights,
    ) {
        empty_side::<RK::Model, RV::Model, JK::Model>().run_concat(
            sources.head@,
            steps,
            self.rkey(),
        );
    }
}

impl<
    Location,
    K: MapKey,
    Input: CellValue,
    HeadRK: MapKey,
    HeadRV: CellValue,
    JK: MapKey,
    Mid: CellValue,
    FL: RowFn<K, Input, JK>,
    FR: RightJoinKey<HeadRK, HeadRV, JK>,
    P: StageProject<K, Input, HeadRK, HeadRV, Mid>,
    Tail: SourceAt<Location, K, Mid, RK, RV>,
    RK: MapKey,
    RV: CellValue,
> SourceAt<There<Location>, K, Input, RK, RV> for JCons<
    StageConfig<K, Input, HeadRK, HeadRV, JK, Mid, FL, FR, P>,
    Tail,
> {
    open spec fn telling(
        sources: Self::Sources,
        steps: Seq<Change<RK::Model, RV::Model>>,
    ) -> Self::Sources {
        StageSources { head: sources.head, tail: Tail::telling(sources.tail, steps) }
    }

    proof fn sourced_run(
        &self,
        before: Self::Rights,
        sources: Self::Sources,
        steps: Seq<Change<RK::Model, RV::Model>>,
        after: Self::Rights,
    ) {
        self.tail.sourced_run(before.tail, sources.tail, steps, after.tail);
    }
}

} // verus!
