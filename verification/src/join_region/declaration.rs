//! What a stage of a join does with a left row and the right rows that match it.
use std::marker::PhantomData;
use vstd::prelude::*;

use crate::func::{call2, call_rows, image2, image_rows, pure2, pure_rows, RowFn, RowsFn};
use crate::query::{ByMapKey, Partition, PlanProperties, ZeroOrOne};
use crate::value::{models, models_push, CellValue, MapKey};

verus! {

/// The empty list of join stages.
#[derive(Clone, Copy, Debug)]
pub struct JNil;

/// A list of join stages in the order in which they work: `head` before all of `tail`.
pub struct JCons<Head, Tail> {
    pub head: Head,
    pub tail: Tail,
}

/// A projection performed directly at a join boundary.
///
/// `None` means that the left row is filtered out, so that collection, direct projection, mapping
/// and filtering compose without a plan node between them.
pub trait StageProject<
    K: CellValue,
    Input: CellValue,
    RightKey: CellValue,
    RightValue: CellValue,
    Output: CellValue,
>: Send + Sync + 'static {
    /// The projection can be called, and its result depends on the models of its arguments alone.
    spec fn lawful(&self) -> bool;

    /// The model of the projected row.
    spec fn projected(
        &self,
        key: K::Model,
        input: Input::Model,
        rights: Seq<(RightKey::Model, RightValue::Model)>,
    ) -> Option<Output::Model>;

    fn project(&self, key: &K, input: &Input, rights: &[(RightKey, RightValue)]) -> (output: Option<
        Output,
    >)
        requires
            self.lawful(),
        ensures
            output.model() == self.projected(key.model(), input.model(), models(rights@)),
    ;
}

/// The values of rows, in order.
pub open spec fn row_values<RK, RV>(rights: Seq<(RK, RV)>) -> Seq<RV> {
    rights.map_values(|r: (RK, RV)| r.1)
}

/// The values of rows: one for each row, in the same places.
pub proof fn values_in_place<RK, RV>(rights: Seq<(RK, RV)>)
    ensures
        row_values(rights).len() == rights.len(),
        forall|i: int| 0 <= i < rights.len() ==> #[trigger] row_values(rights)[i] == rights[i].1,
{
}

/// A left row with the values of the right rows that match it.
pub fn collect_matches<K: CellValue, Input: CellValue, RK: CellValue, RV: CellValue>(
    key: &K,
    input: &Input,
    rights: &[(RK, RV)],
) -> (joined: (Input, Vec<RV>))
    ensures
        joined.model() == (input.model(), row_values(models(rights@))),
        joined.0.model() == input.model(),
        joined.1@.len() == rights@.len(),
        forall|i: int|
            0 <= i < rights@.len() ==> (#[trigger] joined.1@[i]).model() == rights@[i].1.model(),
{
    let mut values: Vec<RV> = Vec::new();
    let mut i: usize = 0;
    assert(models(values@) =~= row_values(models(rights@)).take(0));
    while i < rights.len()
        invariant
            i <= rights@.len(),
            models(values@) == row_values(models(rights@)).take(i as int),
            values@.len() == i,
            forall|n: int|
                0 <= n < i ==> (#[trigger] values@[n]).model() == rights@[n].1.model(),
        decreases rights@.len() - i,
    {
        let value = rights[i].1.clone_value();
        proof {
            models_push(values@, value);
            assert(row_values(models(rights@)).take(i as int).push(value.model()) =~= row_values(
                models(rights@),
            ).take(i + 1));
        }
        values.push(value);
        i += 1;
    }
    assert(row_values(models(rights@)).take(i as int) =~= row_values(models(rights@)));
    (input.clone_value(), values)
}

/// The key of a row, as its join key.
pub fn map_key<K: CellValue, V: CellValue>(key: &K, value: &V) -> (join_key: K)
    ensures
        join_key.model() == key.model(),
{
    key.clone_value()
}

/// The map key of the parent of a child row.
pub fn foreign_map_key<
    Rel: crate::foreign_key::ForeignKeyRelation,
    RK: CellValue,
    K: CellValue,
>(row_key: &RK, value: &Rel::Child) -> (key: Option<K>) where
    Rel::ForeignKey: crate::foreign_key::IdFor<Rel::Parent, MapKey = K>,

    ensures
        key.model() == parent_key::<Rel, K>(value.model()),
        key is Some == Rel::key_of(value.model()) is Some,
        key is Some ==> key->Some_0.model() == <Rel::ForeignKey as crate::foreign_key::IdFor<
            Rel::Parent,
        >>::key_for(Rel::key_of(value.model())->Some_0),
{
    match Rel::foreign_key(value) {
        Some(id) => Some(crate::foreign_key::IdFor::<Rel::Parent>::map_key(&id)),
        None => None,
    }
}

/// The map key of the parent of a child with this model.
pub open spec fn parent_key<Rel: crate::foreign_key::ForeignKeyRelation, K: CellValue>(
    child: <Rel::Child as CellValue>::Model,
) -> Option<K::Model> where Rel::ForeignKey: crate::foreign_key::IdFor<Rel::Parent, MapKey = K> {
    match Rel::key_of(child) {
        Some(id) => Some(<Rel::ForeignKey as crate::foreign_key::IdFor<Rel::Parent>>::key_for(id)),
        None => None,
    }
}

/// A projection of the left row and the values of the right rows that match it.
pub struct CollectProject<F>(pub F);

impl<
    K: CellValue,
    Input: CellValue,
    RightKey: CellValue,
    RightValue: CellValue,
    Output: CellValue,
    F: RowFn<K, (Input, Vec<RightValue>), Output>,
> StageProject<K, Input, RightKey, RightValue, Output> for CollectProject<F> {
    open spec fn lawful(&self) -> bool {
        pure2::<K, (Input, Vec<RightValue>), Output, F>(self.0)
    }

    open spec fn projected(
        &self,
        key: K::Model,
        input: Input::Model,
        rights: Seq<(RightKey::Model, RightValue::Model)>,
    ) -> Option<Output::Model> {
        Some(image2::<K, (Input, Vec<RightValue>), Output, F>(self.0, key, (input, row_values(rights))))
    }

    fn project(&self, key: &K, input: &Input, rights: &[(RightKey, RightValue)]) -> (output: Option<
        Output,
    >)
        ensures
            exists|values: Seq<RightValue::Model>|
                #![trigger self.0.image(key.model(), (input.model(), values))]
                values.len() == rights@.len() && (forall|i: int|
                    0 <= i < rights@.len() ==> #[trigger] values[i] == rights@[i].1.model())
                    && output is Some && output->Some_0.model() == self.0.image(
                    key.model(),
                    (input.model(), values),
                ),
    {
        let joined = collect_matches(key, input, rights);
        proof {
            let values = models(joined.1@);
            assert forall|i: int| 0 <= i < rights@.len() implies #[trigger] values[i]
                == rights@[i].1.model() by {
                assert(joined.1@[i].model() == rights@[i].1.model());
            }
            assert(joined.model() == (input.model(), values));
            let _ = self.0.image(key.model(), (input.model(), values));
        }
        Some(call2(&self.0, key, &joined))
    }
}

/// A projection that reads the matching right rows directly.
pub struct DirectProject<F>(pub F);

impl<
    K: CellValue,
    Input: CellValue,
    RightKey: CellValue,
    RightValue: CellValue,
    Output: CellValue,
    F: RowsFn<K, Input, RightKey, RightValue, Output>,
> StageProject<K, Input, RightKey, RightValue, Output> for DirectProject<F> {
    open spec fn lawful(&self) -> bool {
        pure_rows::<K, Input, RightKey, RightValue, Output, F>(self.0)
    }

    open spec fn projected(
        &self,
        key: K::Model,
        input: Input::Model,
        rights: Seq<(RightKey::Model, RightValue::Model)>,
    ) -> Option<Output::Model> {
        Some(image_rows::<K, Input, RightKey, RightValue, Output, F>(self.0, key, input, rights))
    }

    fn project(&self, key: &K, input: &Input, rights: &[(RightKey, RightValue)]) -> (output: Option<
        Output,
    >)
        ensures
            output is Some,
            output->Some_0.model() == self.0.image(key.model(), input.model(), models(rights@)),
    {
        Some(call_rows(&self.0, key, input, rights))
    }
}

/// A projection that maps what another one gives.
pub struct ThenMap<Project, F, Intermediate> {
    pub project: Project,
    pub map: F,
    pub intermediate: PhantomData<Intermediate>,
}

impl<Project, F, Intermediate> ThenMap<Project, F, Intermediate> {
    pub fn new(project: Project, map: F) -> (mapped: Self)
        ensures
            mapped == (ThenMap { project, map, intermediate: PhantomData::<Intermediate> }),
    {
        ThenMap { project, map, intermediate: PhantomData }
    }
}

impl<
    K: CellValue,
    Input: CellValue,
    RightKey: CellValue,
    RightValue: CellValue,
    Intermediate: CellValue,
    Output: CellValue,
    Project: StageProject<K, Input, RightKey, RightValue, Intermediate>,
    F: RowFn<K, Intermediate, Output>,
> StageProject<K, Input, RightKey, RightValue, Output> for ThenMap<Project, F, Intermediate> {
    open spec fn lawful(&self) -> bool {
        self.project.lawful() && pure2::<K, Intermediate, Output, F>(self.map)
    }

    open spec fn projected(
        &self,
        key: K::Model,
        input: Input::Model,
        rights: Seq<(RightKey::Model, RightValue::Model)>,
    ) -> Option<Output::Model> {
        match self.project.projected(key, input, rights) {
            Some(value) => Some(image2::<K, Intermediate, Output, F>(self.map, key, value)),
            None => None,
        }
    }

    fn project(&self, key: &K, input: &Input, rights: &[(RightKey, RightValue)]) -> (output: Option<
        Output,
    >)
        ensures
            output is Some == self.project.projected(
                key.model(),
                input.model(),
                models(rights@),
            ) is Some,
            output is Some ==> output->Some_0.model() == self.map.image(
                key.model(),
                self.project.projected(key.model(), input.model(), models(rights@))->Some_0,
            ),
    {
        match self.project.project(key, input, rights) {
            Some(value) => Some(call2(&self.map, key, &value)),
            None => None,
        }
    }
}

/// A projection that keeps what another one gives where a predicate accepts it.
pub struct FilterProject<Project, Predicate> {
    pub project: Project,
    pub predicate: Predicate,
}

impl<Project, Predicate> FilterProject<Project, Predicate> {
    pub fn new(project: Project, predicate: Predicate) -> (filtered: Self)
        ensures
            filtered.project == project,
            filtered.predicate == predicate,
    {
        FilterProject { project, predicate }
    }
}

impl<
    K: CellValue,
    Input: CellValue,
    RightKey: CellValue,
    RightValue: CellValue,
    Output: CellValue,
    Project: StageProject<K, Input, RightKey, RightValue, Output>,
    Predicate: RowFn<K, Output, bool>,
> StageProject<K, Input, RightKey, RightValue, Output> for FilterProject<Project, Predicate> {
    open spec fn lawful(&self) -> bool {
        self.project.lawful() && pure2::<K, Output, bool, Predicate>(self.predicate)
    }

    open spec fn projected(
        &self,
        key: K::Model,
        input: Input::Model,
        rights: Seq<(RightKey::Model, RightValue::Model)>,
    ) -> Option<Output::Model> {
        match self.project.projected(key, input, rights) {
            Some(value) => if image2::<K, Output, bool, Predicate>(self.predicate, key, value) {
                Some(value)
            } else {
                None
            },
            None => None,
        }
    }

    fn project(&self, key: &K, input: &Input, rights: &[(RightKey, RightValue)]) -> (output: Option<
        Output,
    >)
        ensures
            output is Some == (self.project.projected(
                key.model(),
                input.model(),
                models(rights@),
            ) is Some && self.predicate.image(
                key.model(),
                self.project.projected(key.model(), input.model(), models(rights@))->Some_0,
            )),
            output is Some ==> Some(output->Some_0.model()) == self.project.projected(
                key.model(),
                input.model(),
                models(rights@),
            ),
    {
        match self.project.project(key, input, rights) {
            Some(value) => if call2(&self.predicate, key, &value) {
                Some(value)
            } else {
                None
            },
            None => None,
        }
    }
}

/// The projection function of a stage.
pub open spec fn projection<
    K: CellValue,
    Input: CellValue,
    RightKey: CellValue,
    RightValue: CellValue,
    Output: CellValue,
    P: StageProject<K, Input, RightKey, RightValue, Output>,
>(project: P) -> spec_fn(
    K::Model,
    Input::Model,
    Seq<(RightKey::Model, RightValue::Model)>,
) -> Option<Output::Model> {
    |k: K::Model, v: Input::Model, r: Seq<(RightKey::Model, RightValue::Model)>|
        project.projected(k, v, r)
}

/// A projection that reads the matching right rows directly can be called where its function can.
pub proof fn direct_project_lawful<
    K: CellValue,
    Input: CellValue,
    RK: CellValue,
    RV: CellValue,
    Output: CellValue,
    F: RowsFn<K, Input, RK, RV, Output>,
>(project: DirectProject<F>)
    requires
        pure_rows::<K, Input, RK, RV, Output, F>(project.0),
    ensures
        StageProject::<K, Input, RK, RV, Output>::lawful(&project),
{
}

/// A projection that maps what another one gives can be called where both can.
pub proof fn then_map_lawful<
    K: CellValue,
    Input: CellValue,
    RK: CellValue,
    RV: CellValue,
    Intermediate: CellValue,
    Output: CellValue,
    Project: StageProject<K, Input, RK, RV, Intermediate>,
    F: RowFn<K, Intermediate, Output>,
>(project: ThenMap<Project, F, Intermediate>)
    requires
        project.project.lawful(),
        pure2::<K, Intermediate, Output, F>(project.map),
    ensures
        StageProject::<K, Input, RK, RV, Output>::lawful(&project),
{
}

/// Puts a stage behind the last one of a list.
pub trait Push<Stage>: Sized {
    type Output;

    /// The list with the stage behind its last one.
    spec fn pushed(self, stage: Stage) -> Self::Output;

    fn push(self, stage: Stage) -> (stages: Self::Output)
        ensures
            stages == self.pushed(stage),
    ;
}

impl<Stage> Push<Stage> for JNil {
    type Output = JCons<Stage, JNil>;

    open spec fn pushed(self, stage: Stage) -> JCons<Stage, JNil> {
        JCons { head: stage, tail: self }
    }

    fn push(self, stage: Stage) -> (stages: JCons<Stage, JNil>) {
        JCons { head: stage, tail: self }
    }
}

impl<Head, Tail: Push<Stage>, Stage> Push<Stage> for JCons<Head, Tail> {
    type Output = JCons<Head, Tail::Output>;

    open spec fn pushed(self, stage: Stage) -> JCons<Head, Tail::Output> {
        JCons { head: self.head, tail: self.tail.pushed(stage) }
    }

    fn push(self, stage: Stage) -> (stages: JCons<Head, Tail::Output>) {
        JCons { head: self.head, tail: self.tail.push(stage) }
    }
}

/// A stage that keeps its right rows to itself.
#[derive(Clone, Copy, Debug)]
pub struct OwnedIndex;

/// A stage that shares its right rows with others that have the same relationship, where they come
/// from a source itself.
pub struct SharedRelationIndex<Rel>(pub PhantomData<Rel>);

impl<Rel> SharedRelationIndex<Rel> {
    pub fn new() -> (policy: Self)
        ensures
            policy == SharedRelationIndex::<Rel>(PhantomData),
    {
        SharedRelationIndex(PhantomData)
    }
}

/// Whether a stage shares its right rows.
pub trait IndexPolicy {
    /// The right rows are shared, where their plan is a source itself or not.
    spec fn shares_rows(&self, raw_source: bool) -> bool;

    fn shares(&self, raw_source: bool) -> (shared: bool)
        ensures
            shared == self.shares_rows(raw_source),
    ;
}

impl IndexPolicy for OwnedIndex {
    open spec fn shares_rows(&self, raw_source: bool) -> bool {
        false
    }

    fn shares(&self, raw_source: bool) -> (shared: bool)
        ensures
            !shared,
    {
        false
    }
}

impl<Rel> IndexPolicy for SharedRelationIndex<Rel> {
    open spec fn shares_rows(&self, raw_source: bool) -> bool {
        raw_source
    }

    fn shares(&self, raw_source: bool) -> (shared: bool)
        ensures
            shared == raw_source,
    {
        raw_source
    }
}

/// One stage of a join region: the plan of its right rows, how rows get their join keys, and what
/// becomes of a left row and the right rows that match it.
pub struct JoinStage<
    Right,
    K,
    Input,
    RightKey,
    RightValue,
    JoinKey,
    Output,
    LeftKey,
    RightKeyFn,
    Project,
    Policy = OwnedIndex,
> {
    pub right: Right,
    pub left_key: LeftKey,
    pub right_key: RightKeyFn,
    pub project: Project,
    pub index_policy: Policy,
    pub types: PhantomData<(K, Input, RightKey, RightValue, JoinKey, Output)>,
}

impl<
    Right,
    K,
    Input,
    RightKey,
    RightValue,
    JoinKey,
    Output,
    LeftKey,
    RightKeyFn,
    Project,
> JoinStage<Right, K, Input, RightKey, RightValue, JoinKey, Output, LeftKey, RightKeyFn, Project> {
    /// A stage that keeps its right rows to itself.
    pub fn new(
        right: Right,
        left_key: LeftKey,
        right_key: RightKeyFn,
        project: Project,
    ) -> (stage: Self)
        ensures
            stage == (JoinStage {
                right,
                left_key,
                right_key,
                project,
                index_policy: OwnedIndex,
                types: PhantomData::<(K, Input, RightKey, RightValue, JoinKey, Output)>,
            }),
    {
        JoinStage { right, left_key, right_key, project, index_policy: OwnedIndex, types: PhantomData }
    }

    /// The stage with another policy for its right rows.
    pub fn with_index_policy<Policy>(self, index_policy: Policy) -> (stage: JoinStage<
        Right,
        K,
        Input,
        RightKey,
        RightValue,
        JoinKey,
        Output,
        LeftKey,
        RightKeyFn,
        Project,
        Policy,
    >)
        ensures
            stage == (JoinStage {
                right: self.right,
                left_key: self.left_key,
                right_key: self.right_key,
                project: self.project,
                index_policy,
                types: PhantomData::<(K, Input, RightKey, RightValue, JoinKey, Output)>,
            }),
    {
        JoinStage {
            right: self.right,
            left_key: self.left_key,
            right_key: self.right_key,
            project: self.project,
            index_policy,
            types: PhantomData,
        }
    }
}

/// The types of a stage of a join region.
pub trait StageSpec {
    type Key: MapKey;

    type Input: CellValue;

    type Output: CellValue;

    type InputPartition: Partition;

    type OutputPartition: Partition;
}

impl<
    Right,
    K: MapKey,
    Input: CellValue,
    RK: CellValue,
    RV: CellValue,
    JK: CellValue,
    Output: CellValue,
    LeftKey,
    RightKeyFn,
    Project: StageProject<K, Input, RK, RV, Output>,
    Policy,
> StageSpec for JoinStage<Right, K, Input, RK, RV, JK, Output, LeftKey, RightKeyFn, Project, Policy> {
    type Key = K;

    type Input = Input;

    type Output = Output;

    type InputPartition = ByMapKey<K>;

    type OutputPartition = ByMapKey<K>;
}

impl<
    Right,
    K: MapKey,
    Input: CellValue,
    RK: CellValue,
    RV: CellValue,
    JK: CellValue,
    Output: CellValue,
    LeftKey,
    RightKeyFn,
    Project: StageProject<K, Input, RK, RV, Output>,
    Policy,
> PlanProperties for JoinStage<
    Right,
    K,
    Input,
    RK,
    RV,
    JK,
    Output,
    LeftKey,
    RightKeyFn,
    Project,
    Policy,
> {
    type Cardinality = ZeroOrOne;

    type InputPartition = ByMapKey<K>;

    type OutputPartition = ByMapKey<K>;
}

/// A list of stages each of which works on what the one before it gives.
pub trait StageList<K: MapKey, Input: CellValue> {
    type Output: CellValue;
}

impl<K: MapKey, Input: CellValue> StageList<K, Input> for JNil {
    type Output = Input;
}

impl<
    K: MapKey,
    Input: CellValue,
    Head: StageSpec<Key = K, Input = Input, OutputPartition = ByMapKey<K>>,
    Tail: StageList<K, Head::Output>,
> StageList<K, Input> for JCons<Head, Tail> {
    type Output = Tail::Output;
}

/// The types of the last stage of a list.
pub trait LastStage {
    type Input: CellValue;

    type RightKey: MapKey;

    type RightValue: CellValue;
}

impl<
    Right,
    K,
    Input: CellValue,
    RK: MapKey,
    RV: CellValue,
    JK,
    Output,
    FL,
    FR,
    Project,
    Policy,
> LastStage for JCons<JoinStage<Right, K, Input, RK, RV, JK, Output, FL, FR, Project, Policy>, JNil> {
    type Input = Input;

    type RightKey = RK;

    type RightValue = RV;
}

impl<Head, TailHead, TailTail> LastStage for JCons<Head, JCons<TailHead, TailTail>> where
    JCons<TailHead, TailTail>: LastStage,
 {
    type Input = <JCons<TailHead, TailTail> as LastStage>::Input;

    type RightKey = <JCons<TailHead, TailTail> as LastStage>::RightKey;

    type RightValue = <JCons<TailHead, TailTail> as LastStage>::RightValue;
}

/// Gives the last stage of a list another projection.
pub trait ReplaceLastProject<F, Output>: Sized {
    type Stages;

    /// The list with another projection in its last stage.
    spec fn replaced(self, project: F) -> Self::Stages;

    fn replace_last_project(self, project: F) -> (stages: Self::Stages)
        ensures
            stages == self.replaced(project),
    ;
}

impl<
    Right,
    K,
    Input,
    RK,
    RV,
    JK,
    OldOutput,
    FL,
    FR,
    OldProject,
    Policy,
    F,
    Output,
> ReplaceLastProject<F, Output> for JCons<
    JoinStage<Right, K, Input, RK, RV, JK, OldOutput, FL, FR, OldProject, Policy>,
    JNil,
> {
    type Stages = JCons<
        JoinStage<Right, K, Input, RK, RV, JK, Output, FL, FR, DirectProject<F>, Policy>,
        JNil,
    >;

    open spec fn replaced(self, project: F) -> Self::Stages {
        JCons {
            head: JoinStage {
                right: self.head.right,
                left_key: self.head.left_key,
                right_key: self.head.right_key,
                project: DirectProject(project),
                index_policy: self.head.index_policy,
                types: PhantomData,
            },
            tail: JNil,
        }
    }

    fn replace_last_project(self, project: F) -> (stages: Self::Stages) {
        let JoinStage { right, left_key, right_key, index_policy, .. } = self.head;
        JCons {
            head: JoinStage::new(right, left_key, right_key, DirectProject(project)).with_index_policy(
                index_policy,
            ),
            tail: JNil,
        }
    }
}

impl<Head, TailHead, TailTail, F, Output> ReplaceLastProject<F, Output> for JCons<
    Head,
    JCons<TailHead, TailTail>,
> where JCons<TailHead, TailTail>: ReplaceLastProject<F, Output> {
    type Stages = JCons<Head, <JCons<TailHead, TailTail> as ReplaceLastProject<F, Output>>::Stages>;

    open spec fn replaced(self, project: F) -> Self::Stages {
        JCons {
            head: self.head,
            tail: ReplaceLastProject::<F, Output>::replaced(self.tail, project),
        }
    }

    fn replace_last_project(self, project: F) -> (stages: Self::Stages) {
        JCons {
            head: self.head,
            tail: ReplaceLastProject::<F, Output>::replace_last_project(self.tail, project),
        }
    }
}

/// Maps what the last stage of a list gives.
pub trait MapLast<F, Output>: Sized {
    type Stages;

    /// The list with what its last stage gives mapped.
    spec fn mapped_last(self, map: F) -> Self::Stages;

    fn map_last(self, map: F) -> (stages: Self::Stages)
        ensures
            stages == self.mapped_last(map),
    ;
}

impl<
    Right,
    K,
    Input,
    RK,
    RV,
    JK,
    Intermediate,
    FL,
    FR,
    Project,
    Policy,
    F,
    Output,
> MapLast<F, Output> for JCons<
    JoinStage<Right, K, Input, RK, RV, JK, Intermediate, FL, FR, Project, Policy>,
    JNil,
> {
    type Stages = JCons<
        JoinStage<
            Right,
            K,
            Input,
            RK,
            RV,
            JK,
            Output,
            FL,
            FR,
            ThenMap<Project, F, Intermediate>,
            Policy,
        >,
        JNil,
    >;

    open spec fn mapped_last(self, map: F) -> Self::Stages {
        JCons {
            head: JoinStage {
                right: self.head.right,
                left_key: self.head.left_key,
                right_key: self.head.right_key,
                project: ThenMap { project: self.head.project, map, intermediate: PhantomData },
                index_policy: self.head.index_policy,
                types: PhantomData,
            },
            tail: JNil,
        }
    }

    fn map_last(self, map: F) -> (stages: Self::Stages) {
        let JoinStage { right, left_key, right_key, project, index_policy, .. } = self.head;
        JCons {
            head: JoinStage::new(right, left_key, right_key, ThenMap::new(project, map)).with_index_policy(
                index_policy,
            ),
            tail: JNil,
        }
    }
}

impl<Head, TailHead, TailTail, F, Output> MapLast<F, Output> for JCons<
    Head,
    JCons<TailHead, TailTail>,
> where JCons<TailHead, TailTail>: MapLast<F, Output> {
    type Stages = JCons<Head, <JCons<TailHead, TailTail> as MapLast<F, Output>>::Stages>;

    open spec fn mapped_last(self, map: F) -> Self::Stages {
        JCons { head: self.head, tail: MapLast::<F, Output>::mapped_last(self.tail, map) }
    }

    fn map_last(self, map: F) -> (stages: Self::Stages) {
        JCons { head: self.head, tail: MapLast::<F, Output>::map_last(self.tail, map) }
    }
}

} // verus!
