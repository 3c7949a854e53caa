//! Regions and their sources: what is told leads to what the stages make of the rows of the sources.
use vstd::prelude::*;

use crate::delta::{commit_change, delta, differing, piped, piped_lookup};
use crate::diff::{entries_map, fits_all, replay, replay_concat, work_of, Change};
use crate::foreign_key::{
    right_key, ForeignKeyRelation, IdFor, OptionalRightKey, RightJoinKey,
};
use crate::func::{image2, RowFn};
use crate::fx::lookup;
use crate::index::{entry_keys, matches_source, rows_of, side_of_source};
use crate::join_region::declaration::{
    row_values, DirectProject, IndexPolicy, JCons, JNil, JoinStage, Push, SharedRelationIndex,
    StageProject,
};
use crate::join_region::plan::SplitStages;
use crate::join_region::router::{
    region_row, right_chain, right_told, right_trace, RegionRouter,
};
use crate::join_region::sources::{SourceAt, SourcedStages, StageSources};
use crate::join_region::stage_laws::JoinsThrough;
use crate::join_region::stage_runtime::{
    delta_shape, RegionStages, RightRoot, RuntimeStageCost, RuntimeStages, StageRights,
};
use crate::join_region::trace::{live_of, step_keys};
use crate::join_runtime::state::joined_lookup;
use crate::join_runtime::two_stage::TwoStageKernel;
use crate::ordered_set::kept;
use crate::query::MapQuery;
use crate::row_fns::{Collected, OwnKey, ParentKey};
use crate::value::{CellValue, MapKey};

verus! {

/// A region has followed its sources: it has the rows that the left one has led to, its stages hold
/// those of the right ones, and what it has told, replayed on no rows, leads to the rows that come out
/// of it.
pub open spec fn region_follows<
    S: RegionStages<K, Input> + SourcedStages<K, Input>,
    K: MapKey,
    Input: CellValue,
>(
    router: RegionRouter<S, K, Input>,
    left: Seq<Change<K::Model, Input::Model>>,
    sources: S::Sources,
    told: Seq<Change<K::Model, <S::Output as CellValue>::Model>>,
) -> bool {
    &&& router.wf()
    &&& router.rows() == rows_of(left)
    &&& router.stages().sourced(router.rights(), sources)
    &&& fits_all(Map::empty(), told)
    &&& rows_of(told) == router.output()
}

/// A new region has followed sources that have told nothing, and has told nothing.
pub proof fn region_begins<
    S: RegionStages<K, Input> + SourcedStages<K, Input>,
    K: MapKey,
    Input: CellValue,
>(router: RegionRouter<S, K, Input>)
    requires
        router.wf(),
        router.rows() == Map::<K::Model, Input::Model>::empty(),
        router.stages().bare(router.rights()),
    ensures
        region_follows(router, Seq::empty(), S::silent(), Seq::empty()),
{
    router.stages().sourced_none(router.rights());
    assert(router.output() =~= Map::empty());
}

/// A region that takes a diff of its left source goes on following its sources.
pub proof fn region_follows_left<
    S: RegionStages<K, Input> + SourcedStages<K, Input>,
    K: MapKey,
    Input: CellValue,
>(
    before: RegionRouter<S, K, Input>,
    left: Seq<Change<K::Model, Input::Model>>,
    sources: S::Sources,
    told: Seq<Change<K::Model, <S::Output as CellValue>::Model>>,
    steps: Seq<Change<K::Model, Input::Model>>,
    after: RegionRouter<S, K, Input>,
    more: Seq<Change<K::Model, <S::Output as CellValue>::Model>>,
)
    requires
        region_follows(before, left, sources, told),
        after.wf(),
        after.stages() == before.stages(),
        after.rights() == before.rights(),
        after.rows() == replay(before.rows(), steps),
        fits_all(before.output(), more),
        replay(before.output(), more) == after.output(),
    ensures
        region_follows(after, left + steps, sources, told + more),
{
    replay_concat(Map::empty(), left, steps);
    replay_concat(Map::empty(), told, more);
}

/// A region that takes a diff of one of its right sources goes on following its sources.
pub proof fn region_follows_right<
    Location,
    S: RegionStages<K, Input> + SourceAt<Location, K, Input, RK, RV>,
    K: MapKey,
    Input: CellValue,
    RK: MapKey,
    RV: CellValue,
>(
    before: RegionRouter<S, K, Input>,
    left: Seq<Change<K::Model, Input::Model>>,
    sources: S::Sources,
    told: Seq<Change<K::Model, <S::Output as CellValue>::Model>>,
    steps: Seq<Change<RK::Model, RV::Model>>,
    after: RegionRouter<S, K, Input>,
    more: Seq<Change<K::Model, <S::Output as CellValue>::Model>>,
)
    requires
        region_follows(before, left, sources, told),
        after.wf(),
        after.stages() == before.stages(),
        after.rows() == before.rows(),
        after.stages().right_run(before.rights(), steps, after.rights()),
        fits_all(before.output(), more),
        replay(before.output(), more) == after.output(),
    ensures
        region_follows(after, left, S::telling(sources, steps), told + more),
{
    before.stages().sourced_run(before.rights(), sources, steps, after.rights());
    replay_concat(Map::empty(), told, more);
}

/// What a region has told, replayed on no rows, gives for each row of the left source what comes out
/// of the stages with the rows that the right sources have led to, and nothing else.
pub proof fn region_of_sources<
    S: RegionStages<K, Input> + SourcedStages<K, Input>,
    K: MapKey,
    Input: CellValue,
>(
    router: RegionRouter<S, K, Input>,
    left: Seq<Change<K::Model, Input::Model>>,
    sources: S::Sources,
    told: Seq<Change<K::Model, <S::Output as CellValue>::Model>>,
    key: K::Model,
)
    requires
        region_follows(router, left, sources, told),
    ensures
        lookup(rows_of(told), key) == (match lookup(rows_of(left), key) {
            Some(input) => router.stages().comes_out(sources, key, input),
            None => None,
        }),
{
    piped_lookup(router.rows(), router.row(), key);
    if rows_of(left).contains_key(key) {
        router.stages().through_sources(router.rights(), sources, key, rows_of(left)[key]);
    }
}

/// Of one change of the right rows a region tells at most one change for each left row, in the order
/// in which the left rows came: those of the rows for which something else comes out than before.
pub proof fn right_change_told_in_order<
    Location,
    S: RightRoot<Location, K, Input, RK, RV>,
    K: MapKey,
    Input: CellValue,
    RK: MapKey,
    RV: CellValue,
>(
    stages: S,
    rows: Map<K::Model, Input::Model>,
    live: Seq<K::Model>,
    before: S::Rights,
    change: Change<RK::Model, RV::Model>,
    after: S::Rights,
    told: Seq<Change<K::Model, <S::Output as CellValue>::Model>>,
)
    requires
        live_of(live, rows),
        right_told::<Location, S, K, Input, RK, RV>(
            stages,
            rows,
            live,
            before,
            seq![change],
            after,
            told,
        ),
    ensures
        step_keys(told) == kept(
            live,
            differing(
                piped(rows, region_row::<S, K, Input>(stages, before)),
                piped(rows, region_row::<S, K, Input>(stages, after)),
            ),
        ),
        step_keys(told).no_duplicates(),
{
    let chain = choose|chain: Seq<S::Rights>|
        #![trigger right_trace::<S, K, Input>(stages, rows, live, chain)]
        right_chain::<Location, S, K, Input, RK, RV>(
            stages,
            chain,
            seq![change],
        ) && chain[0] == before && chain.last() == after && told == right_trace::<S, K, Input>(
            stages,
            rows,
            live,
            chain,
        );
    let a = piped(rows, region_row::<S, K, Input>(stages, before));
    let b = piped(rows, region_row::<S, K, Input>(stages, after));
    let none = right_trace::<S, K, Input>(stages, rows, live, chain.drop_last());
    assert(none == Seq::<Change<K::Model, <S::Output as CellValue>::Model>>::empty());
    assert(chain[chain.len() - 2] == before);
    assert(told == none + delta(a, live, b));
    assert(told =~= delta(a, live, b));
    delta_shape(a, live, b);
    let moved = kept(live, differing(a, b));
    assert forall|i: int| 0 <= i < moved.len() implies #[trigger] step_keys(told)[i] == moved[i] by {
        let c = commit_change(moved[i], lookup(a, moved[i]), lookup(b, moved[i]));
        assert(seq![told[i]] == c);
        assert(seq![told[i]][0] == told[i]);
    }
    assert(step_keys(told) =~= moved);
}

/// A left join put behind a region: where the stages hold the rows of their sources, each row that
/// comes out of the region alone is there once, with the values of `matched`, the rows of the right
/// source of the join that have its join key, each of them once.
pub proof fn left_join_behind_a_region<
    Stages: JoinsThrough<
        Right,
        K,
        Input,
        Mid,
        RK,
        RV,
        JK,
        (Mid, Vec<RV>),
        FL,
        FR,
        DirectProject<Collected>,
        Policy,
    >,
    Right: MapQuery<Key = RK, Value = RV>,
    K: MapKey,
    Input: CellValue,
    Mid: CellValue,
    RK: MapKey,
    RV: CellValue,
    JK: MapKey,
    FL: RowFn<K, Mid, JK>,
    FR: RightJoinKey<RK, RV, JK>,
    Policy: IndexPolicy,
>(
    stages: Stages,
    stage: JoinStage<
        Right,
        K,
        Mid,
        RK,
        RV,
        JK,
        (Mid, Vec<RV>),
        FL,
        FR,
        DirectProject<Collected>,
        Policy,
    >,
    rights: <<Stages::Output as SplitStages<K, Input>>::Runtime as RuntimeStages<K, Input>>::Rights,
    sources: <<Stages::Output as SplitStages<K, Input>>::Runtime as SourcedStages<K, Input>>::Sources,
    left: Map<K::Model, Input::Model>,
    key: K::Model,
) -> (matched: Seq<(RK::Model, RV::Model)>) where
    <Stages as SplitStages<K, Input>>::Runtime: RuntimeStages<K, Input, Output = Mid>,
    Stages::Output: SplitStages<K, Input>,
    <Stages::Output as SplitStages<K, Input>>::Runtime: RuntimeStages<
        K,
        Input,
        Output = (Mid, Vec<RV>),
    >,

    requires
        stages.pushed(stage).runtime().sourced(rights, sources),
    ensures
        lookup(piped(left, region_row(stages.pushed(stage).runtime(), rights)), key) == (match lookup(
            piped(left, region_row(stages.runtime(), Stages::front(rights))),
            key,
        ) {
            Some(row) => Some((row, row_values(matched))),
            None => None,
        }),
        match lookup(piped(left, region_row(stages.runtime(), Stages::front(rights))), key) {
            Some(row) => matches_source(
                matched,
                rows_of(Stages::behind_source(sources)),
                right_key::<RK, RV, JK, FR>(stage.right_key),
                image2::<K, Mid, JK, FL>(stage.left_key, key, row),
            ),
            None => true,
        },
        stages.runtime().sourced(Stages::front(rights), Stages::front_sources(sources)),
{
    stages.sourced_through(stage, rights, sources);
    let short = region_row(stages.runtime(), Stages::front(rights));
    piped_lookup(left, short, key);
    piped_lookup(left, region_row(stages.pushed(stage).runtime(), rights), key);
    match lookup(left, key) {
        Some(input) => {
            stages.joins_through(stage, rights, key, input);
            match stages.runtime().through(Stages::front(rights), key, input) {
                Some(row) => {
                    let j = image2::<K, Mid, JK, FL>(stage.left_key, key, row);
                    side_of_source(
                        Stages::behind_source(sources),
                        right_key::<RK, RV, JK, FR>(stage.right_key),
                    );
                    Stages::behind(rights).matches_of(j)
                },
                None => Seq::empty(),
            }
        },
        None => Seq::empty(),
    }
}

/// A left join by a relationship put behind a region: each row that comes out of the region alone is
/// there once, with the values of `matched`, the children whose foreign key names its key, each of them
/// once. A child without a foreign key is with no row, and a row without children has none.
pub proof fn relation_behind_a_region<
    Stages: JoinsThrough<
        Right,
        K,
        Input,
        Mid,
        Right::Key,
        Rel::Child,
        K,
        (Mid, Vec<Rel::Child>),
        OwnKey,
        OptionalRightKey<ParentKey<Rel>>,
        DirectProject<Collected>,
        SharedRelationIndex<Rel>,
    >,
    Rel: ForeignKeyRelation,
    Right: MapQuery<Value = Rel::Child>,
    K: MapKey,
    Input: CellValue,
    Mid: CellValue,
>(
    stages: Stages,
    stage: JoinStage<
        Right,
        K,
        Mid,
        Right::Key,
        Rel::Child,
        K,
        (Mid, Vec<Rel::Child>),
        OwnKey,
        OptionalRightKey<ParentKey<Rel>>,
        DirectProject<Collected>,
        SharedRelationIndex<Rel>,
    >,
    rights: <<Stages::Output as SplitStages<K, Input>>::Runtime as RuntimeStages<K, Input>>::Rights,
    sources: <<Stages::Output as SplitStages<K, Input>>::Runtime as SourcedStages<K, Input>>::Sources,
    left: Map<K::Model, Input::Model>,
    key: K::Model,
) -> (matched: Seq<(<Right::Key as CellValue>::Model, <Rel::Child as CellValue>::Model)>) where
    Rel::ForeignKey: IdFor<Rel::Parent, MapKey = K>,
    <Stages as SplitStages<K, Input>>::Runtime: RuntimeStages<K, Input, Output = Mid>,
    Stages::Output: SplitStages<K, Input>,
    <Stages::Output as SplitStages<K, Input>>::Runtime: RuntimeStages<
        K,
        Input,
        Output = (Mid, Vec<Rel::Child>),
    >,

    requires
        stages.pushed(stage).runtime().sourced(rights, sources),
    ensures
        lookup(piped(left, region_row(stages.pushed(stage).runtime(), rights)), key) == (match lookup(
            piped(left, region_row(stages.runtime(), Stages::front(rights))),
            key,
        ) {
            Some(row) => Some((row, row_values(matched))),
            None => None,
        }),
        entry_keys(matched).no_duplicates(),
        lookup(piped(left, region_row(stages.runtime(), Stages::front(rights))), key) is Some
            ==> forall|r: <Right::Key as CellValue>::Model| #[trigger]
            lookup(entries_map(matched), r) == (match lookup(
                rows_of(Stages::behind_source(sources)),
                r,
            ) {
                Some(child) => match Rel::key_of(child) {
                    Some(parent) => if <Rel::ForeignKey as IdFor<Rel::Parent>>::key_for(parent)
                        == key {
                        Some(child)
                    } else {
                        None
                    },
                    None => None,
                },
                None => None,
            }),
{
    let matched = left_join_behind_a_region(stages, stage, rights, sources, left, key);
    if lookup(piped(left, region_row(stages.runtime(), Stages::front(rights))), key) is Some {
        matched
    } else {
        Seq::empty()
    }
}

/// Two joins in one runtime give what a region of their two stages gives, so that a third join put
/// behind them as a stage works on their output.
pub proof fn two_joins_are_a_region<
    LK: MapKey,
    LV: CellValue,
    RK1: MapKey,
    RV1: CellValue,
    JK1: MapKey,
    MV: CellValue,
    RK2: MapKey,
    RV2: CellValue,
    JK2: MapKey,
    OV: CellValue,
    FL1: RowFn<LK, LV, JK1>,
    FR1: RightJoinKey<RK1, RV1, JK1>,
    P1: StageProject<LK, LV, RK1, RV1, MV>,
    FL2: RowFn<LK, MV, JK2>,
    FR2: RightJoinKey<RK2, RV2, JK2>,
    P2: StageProject<LK, MV, RK2, RV2, OV>,
    R1: MapQuery<Key = RK1, Value = RV1>,
    R2: MapQuery<Key = RK2, Value = RV2>,
    Policy1: IndexPolicy,
    Policy2: IndexPolicy,
>(
    kernel: TwoStageKernel<
        LK,
        LV,
        RK1,
        RV1,
        JK1,
        MV,
        RK2,
        RV2,
        JK2,
        OV,
        FL1,
        FR1,
        P1,
        FL2,
        FR2,
        P2,
    >,
    stages: JCons<
        JoinStage<R1, LK, LV, RK1, RV1, JK1, MV, FL1, FR1, P1, Policy1>,
        JCons<JoinStage<R2, LK, MV, RK2, RV2, JK2, OV, FL2, FR2, P2, Policy2>, JNil>,
    >,
    rights: StageRights<RK1, RV1, JK1, StageRights<RK2, RV2, JK2, ()>>,
    key: LK::Model,
)
    requires
        kernel.sound(),
        kernel.config.left_key1 == stages.head.left_key,
        kernel.config.project1 == stages.head.project,
        kernel.config.left_key2 == stages.tail.head.left_key,
        kernel.config.project2 == stages.tail.head.project,
        kernel.right1() == rights.head@,
        kernel.right2() == rights.tail.head@,
    ensures
        lookup(kernel.output(), key) == lookup(
            piped(kernel.left1().rows, region_row(stages.runtime(), rights)),
            key,
        ),
{
    let side1 = kernel.left1();
    let side2 = kernel.left2();
    joined_lookup(side1, kernel.right1(), kernel.proj1(), key);
    joined_lookup(side2, kernel.right2(), kernel.proj2(), key);
    piped_lookup(side1.rows, region_row(stages.runtime(), rights), key);
    if side1.rows.contains_key(key) {
        assert((kernel.lkey1())(key, side1.rows[key]) == Some(side1.keys[key]));
        let middle = lookup(kernel.middle(), key);
        assert(lookup(side2.rows, key) == middle);
        if side2.rows.contains_key(key) {
            assert((kernel.lkey2())(key, side2.rows[key]) == Some(side2.keys[key]));
        }
    } else {
        assert(lookup(kernel.middle(), key) is None);
        assert(lookup(side2.rows, key) is None);
    }
}

/// A third left join behind two: what comes out of the region of the three is each row that comes out of
/// the two alone, with the values of `matched`, the rows of the third right source that have the join
/// key of that row, each of them once.
pub proof fn third_join_behind_two<
    LK: MapKey,
    LV: CellValue,
    RK1: MapKey,
    RV1: CellValue,
    JK1: MapKey,
    MV: CellValue,
    RK2: MapKey,
    RV2: CellValue,
    JK2: MapKey,
    OV: CellValue,
    FL1: RowFn<LK, LV, JK1>,
    FR1: RightJoinKey<RK1, RV1, JK1>,
    P1: StageProject<LK, LV, RK1, RV1, MV>,
    FL2: RowFn<LK, MV, JK2>,
    FR2: RightJoinKey<RK2, RV2, JK2>,
    P2: StageProject<LK, MV, RK2, RV2, OV>,
    R1: MapQuery<Key = RK1, Value = RV1>,
    R2: MapQuery<Key = RK2, Value = RV2>,
    R3: MapQuery<Key = RK3, Value = RV3>,
    RK3: MapKey,
    RV3: CellValue,
    JK3: MapKey,
    FL3: RowFn<LK, OV, JK3>,
    FR3: RightJoinKey<RK3, RV3, JK3>,
    Policy1: IndexPolicy,
    Policy2: IndexPolicy,
    Policy3: IndexPolicy,
>(
    kernel: TwoStageKernel<
        LK,
        LV,
        RK1,
        RV1,
        JK1,
        MV,
        RK2,
        RV2,
        JK2,
        OV,
        FL1,
        FR1,
        P1,
        FL2,
        FR2,
        P2,
    >,
    stages: JCons<
        JoinStage<R1, LK, LV, RK1, RV1, JK1, MV, FL1, FR1, P1, Policy1>,
        JCons<JoinStage<R2, LK, MV, RK2, RV2, JK2, OV, FL2, FR2, P2, Policy2>, JNil>,
    >,
    third: JoinStage<
        R3,
        LK,
        OV,
        RK3,
        RV3,
        JK3,
        (OV, Vec<RV3>),
        FL3,
        FR3,
        DirectProject<Collected>,
        Policy3,
    >,
    rights: StageRights<RK1, RV1, JK1, StageRights<RK2, RV2, JK2, StageRights<RK3, RV3, JK3, ()>>>,
    sources: StageSources<RK1, RV1, StageSources<RK2, RV2, StageSources<RK3, RV3, ()>>>,
    key: LK::Model,
) -> (matched: Seq<(RK3::Model, RV3::Model)>)
    requires
        kernel.sound(),
        kernel.config.left_key1 == stages.head.left_key,
        kernel.config.project1 == stages.head.project,
        kernel.config.left_key2 == stages.tail.head.left_key,
        kernel.config.project2 == stages.tail.head.project,
        kernel.right1() == rights.head@,
        kernel.right2() == rights.tail.head@,
        stages.pushed(third).runtime().sourced(rights, sources),
    ensures
        lookup(
            piped(kernel.left1().rows, region_row(stages.pushed(third).runtime(), rights)),
            key,
        ) == (match lookup(kernel.output(), key) {
            Some(row) => Some((row, row_values(matched))),
            None => None,
        }),
        match lookup(kernel.output(), key) {
            Some(row) => matches_source(
                matched,
                rows_of(sources.tail.tail.head@),
                right_key::<RK3, RV3, JK3, FR3>(third.right_key),
                image2::<LK, OV, JK3, FL3>(third.left_key, key, row),
            ),
            None => true,
        },
{
    let front = StageRights {
        head: rights.head,
        tail: StageRights { head: rights.tail.head, tail: () },
    };
    two_joins_are_a_region(kernel, stages, front, key);
    left_join_behind_a_region(stages, third, rights, sources, kernel.left1().rows, key)
}

/// A region is divided among shards by an event that names enough rows, or that is estimated to be enough
/// work, where there is more than one shard. One row costs one, and 24 more for each stage.
pub proof fn when_a_region_is_divided<
    S: RegionStages<K, Input>,
    K: MapKey,
    Input: CellValue,
    Head,
    Tail: RuntimeStageCost,
>(
    router: RegionRouter<S, K, Input>,
    steps: Seq<Change<K::Model, Input::Model>>,
    stages: JCons<Head, Tail>,
)
    requires
        work_of(steps) * router.stages().units() <= usize::MAX,
        work_of(steps) <= usize::MAX,
        router.stages().units() <= usize::MAX,
    ensures
        router.warrants_shards(steps) == (router.shard_count() > 1 && (work_of(steps)
            >= router.promotion_work() || work_of(steps) * router.stages().units() >= 200_000)),
        JNil.units() == 1,
        stages.units() == 24 + stages.tail.units(),
{
}

} // verus!
