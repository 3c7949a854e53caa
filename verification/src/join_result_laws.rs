//! What the joins of two sources give, row by row of the sources.
use std::marker::PhantomData;
use vstd::prelude::*;

use crate::diff::{entries_map, replay, Change};
use crate::diff_laws::{keys_in_place, last_entry_stays};
use crate::foreign_key::{RequiredRightKey, RightJoinKey};
use crate::func::RowFn;
use crate::fx::lookup;
use crate::index::{entry_keys, matches_source, rows_of, side_of, side_of_source};
use crate::inner_join::{inner_join_of_sources, inner_join_rows, pairs_are_owned};
use crate::join_projection_laws::{collected_row, function_of_collected_row};
use crate::join_region::declaration::{DirectProject, JCons, JNil, StageProject, ThenMap};
use crate::join_region::sources::{SourcedStages, StageSources};
use crate::join_region::stage_runtime::StageConfig;
use crate::join_runtime::keyed::{JoinNode, KeyedJoinNode};
use crate::join_runtime::source_laws::{
    join_follows, keyed_join_follows, keyed_join_of_sources, two_joins_follow,
    two_joins_told_of_sources,
};
use crate::join_runtime::two_stage::TwoStageKernel;
use crate::left_join::{JoinProjectionProject, TupleJoinProjection};
use crate::left_semi_join::{matches_are_owned, semi_join_of_sources};
use crate::multi_join_runtime::{multi_join_follows, multi_join_of_sources, MultiJoinRuntime};
use crate::row_fns::{Collected, FirstMatch, Matched, OwnKey, Paired};
use crate::value::{CellValue, MapKey};

verus! {

/// Rows are the rows of a map that have a property, each of them once.
pub open spec fn each_once<K, V>(rows: Seq<(K, V)>, m: Map<K, V>, has: spec_fn(K, V) -> bool) -> bool {
    &&& forall|i: int|
        0 <= i < rows.len() ==> m.contains_key((#[trigger] rows[i]).0) && m[rows[i].0] == rows[i].1
            && has(rows[i].0, rows[i].1)
    &&& forall|i: int, j: int|
        0 <= i < j < rows.len() ==> (#[trigger] rows[i]).0 != (#[trigger] rows[j]).0
    &&& forall|k: K| #[trigger]
        m.contains_key(k) && has(k, m[k]) ==> exists|i: int|
            0 <= i < rows.len() && (#[trigger] rows[i]).0 == k
}

proof fn entries_each_once<K, V>(rows: Seq<(K, V)>, m: Map<K, V>, has: spec_fn(K, V) -> bool)
    requires
        entry_keys(rows).no_duplicates(),
        forall|k: K| #[trigger]
            lookup(entries_map(rows), k) == (if m.contains_key(k) && has(k, m[k]) {
                Some(m[k])
            } else {
                None
            }),
    ensures
        each_once(rows, m, has),
{
    keys_in_place(rows);
    last_entry_stays(rows);
    assert forall|i: int, j: int| 0 <= i < j < rows.len() implies (#[trigger] rows[i]).0 != (
    #[trigger] rows[j]).0 by {
        assert(entry_keys(rows)[i] == rows[i].0 && entry_keys(rows)[j] == rows[j].0);
    }
    assert forall|i: int| 0 <= i < rows.len() implies m.contains_key((#[trigger] rows[i]).0)
        && m[rows[i].0] == rows[i].1 && has(rows[i].0, rows[i].1) by {
        assert(entries_map(rows).contains_key(rows[i].0));
        assert(entries_map(rows)[rows[i].0] == rows[i].1);
        assert(lookup(entries_map(rows), rows[i].0) is Some);
    }
    assert forall|k: K| #[trigger] m.contains_key(k) && has(k, m[k]) implies exists|i: int|
        0 <= i < rows.len() && (#[trigger] rows[i]).0 == k by {
        assert(lookup(entries_map(rows), k) is Some);
        assert(entries_map(rows).contains_key(k));
    }
}

/// What it is for rows to be those of a map that have a join key.
pub proof fn rows_with_a_join_key<K, V, J>(
    rows: Seq<(K, V)>,
    m: Map<K, V>,
    jk: spec_fn(K, V) -> Option<J>,
    j: J,
)
    requires
        matches_source(rows, m, jk, j),
    ensures
        each_once(rows, m, |k: K, v: V| jk(k, v) == Some(j)),
{
    entries_each_once(rows, m, |k: K, v: V| jk(k, v) == Some(j));
}

/// A join that gives each left row one row or none gives what it projects from the left row and from
/// `matched`, the right rows that have the join key of the left row, each of them once.
pub proof fn joined_rows<
    LK: MapKey,
    LV: CellValue,
    RK: MapKey,
    RV: CellValue,
    JK: MapKey,
    OV: CellValue,
    FL: RowFn<LK, LV, JK>,
    FR: RightJoinKey<RK, RV, JK>,
    P: StageProject<LK, LV, RK, RV, OV>,
>(
    node: KeyedJoinNode<LK, LV, RK, RV, JK, OV, FL, FR, P>,
    left: Seq<Change<LK::Model, LV::Model>>,
    right: Seq<Change<RK::Model, RV::Model>>,
    told: Seq<Change<LK::Model, OV::Model>>,
    k: LK::Model,
) -> (matched: Seq<(RK::Model, RV::Model)>)
    requires
        keyed_join_follows(node, left, right, told),
    ensures
        replay(Map::empty(), left).contains_key(k) ==> each_once(
            matched,
            replay(Map::empty(), right),
            |r: RK::Model, w: RV::Model|
                node.join.config.right_key.key_of(r, w) == Some(
                    node.join.config.left_key.image(k, replay(Map::empty(), left)[k]),
                ),
        ),
        replay(Map::empty(), told).contains_key(k) <==> replay(Map::empty(), left).contains_key(k)
            && node.join.config.project.projected(k, replay(Map::empty(), left)[k], matched) is Some,
        replay(Map::empty(), told).contains_key(k) ==> Some(replay(Map::empty(), told)[k])
            == node.join.config.project.projected(k, replay(Map::empty(), left)[k], matched),
{
    let matched = keyed_join_of_sources::<LK, LV, RK, RV, JK, OV, FL, FR, P>(
        node,
        left,
        right,
        told,
        k,
    );
    let l = rows_of(left);
    if l.contains_key(k) {
        let j = (node.join.lkey())(k, l[k])->Some_0;
        rows_with_a_join_key(matched, rows_of(right), node.join.rkey::<RK, RV>(), j);
        assert((|r: RK::Model, w: RV::Model| (node.join.rkey::<RK, RV>())(r, w) == Some(j)) =~= (|
            r: RK::Model,
            w: RV::Model,
        | node.join.config.right_key.key_of(r, w) == Some(node.join.config.left_key.image(k, l[k]))));
    }
    matched
}

/// A left join gives each left row, under its key, with the values of `matched`, the right rows that have
/// its join key, one value for each of them, in the same places.
pub proof fn left_joined_rows<
    LK: MapKey,
    LV: CellValue,
    RK: MapKey,
    RV: CellValue,
    JK: MapKey,
    FL: RowFn<LK, LV, JK>,
    FR: RightJoinKey<RK, RV, JK>,
>(
    node: KeyedJoinNode<LK, LV, RK, RV, JK, (LV, Vec<RV>), FL, FR, DirectProject<Collected>>,
    left: Seq<Change<LK::Model, LV::Model>>,
    right: Seq<Change<RK::Model, RV::Model>>,
    told: Seq<Change<LK::Model, (LV::Model, Seq<RV::Model>)>>,
    k: LK::Model,
) -> (matched: Seq<(RK::Model, RV::Model)>)
    requires
        keyed_join_follows(node, left, right, told),
    ensures
        replay(Map::empty(), told).contains_key(k) == replay(Map::empty(), left).contains_key(k),
        replay(Map::empty(), left).contains_key(k) ==> {
            &&& each_once(
                matched,
                replay(Map::empty(), right),
                |r: RK::Model, w: RV::Model|
                    node.join.config.right_key.key_of(r, w) == Some(
                        node.join.config.left_key.image(k, replay(Map::empty(), left)[k]),
                    ),
            )
            &&& replay(Map::empty(), told)[k].0 == replay(Map::empty(), left)[k]
            &&& replay(Map::empty(), told)[k].1.len() == matched.len()
            &&& forall|i: int|
                0 <= i < matched.len() ==> #[trigger] replay(Map::empty(), told)[k].1[i]
                    == matched[i].1
        },
{
    let matched = joined_rows::<LK, LV, RK, RV, JK, (LV, Vec<RV>), FL, FR, DirectProject<Collected>>(
        node,
        left,
        right,
        told,
        k,
    );
    let out = collected_row::<LK, LV, RK, RV>(k, replay(Map::empty(), left)[k], matched);
    assert(StageProject::<LK, LV, RK, RV, (LV, Vec<RV>)>::projected(
        &node.join.config.project,
        k,
        replay(Map::empty(), left)[k],
        matched,
    ) == Some(out));
    matched
}

/// An inner join gives each pair of a left and a right row that have the same join key, under both
/// keys, and no other.
pub proof fn inner_joined_pairs<
    LK: MapKey,
    LV: CellValue,
    RK: MapKey,
    RV: CellValue,
    JK: MapKey,
    FL: RowFn<LK, LV, JK>,
    FR: RightJoinKey<RK, RV, JK>,
>(
    node: JoinNode<LK, LV, RK, RV, JK, (LK, RK), (LV, RV), FL, FR, Paired>,
    left: Seq<Change<LK::Model, LV::Model>>,
    right: Seq<Change<RK::Model, RV::Model>>,
    told: Seq<Change<(LK::Model, RK::Model), (LV::Model, RV::Model)>>,
    k: LK::Model,
    r: RK::Model,
)
    requires
        join_follows(node, left, right, told),
        node.compute_rows == Paired,
    ensures
        replay(Map::empty(), told).contains_key((k, r)) == (replay(Map::empty(), left).contains_key(k)
            && replay(Map::empty(), right).contains_key(r) && node.right_key.key_of(
            r,
            replay(Map::empty(), right)[r],
        ) == Some(node.left_key.image(k, replay(Map::empty(), left)[k]))),
        replay(Map::empty(), told).contains_key((k, r)) ==> replay(Map::empty(), told)[(k, r)] == (
            replay(Map::empty(), left)[k],
            replay(Map::empty(), right)[r],
        ),
{
    pairs_are_owned::<LK, LV, RK, RV>();
    side_of_source(left, node.lkey());
    side_of_source(right, node.rkey());
    inner_join_of_sources::<LK, LV, RK, RV, JK, FL, FR>(node, rows_of(left), rows_of(right), k, r);
}

/// An inner join of rows with the same key gives the two rows of each key that both sources have, under
/// that key, and no other.
pub proof fn inner_joined_rows<K: MapKey, LV: CellValue, RV: CellValue>(
    node: KeyedJoinNode<K, LV, K, RV, K, (LV, RV), OwnKey, RequiredRightKey<OwnKey>, FirstMatch>,
    left: Seq<Change<K::Model, LV::Model>>,
    right: Seq<Change<K::Model, RV::Model>>,
    told: Seq<Change<K::Model, (LV::Model, RV::Model)>>,
    k: K::Model,
)
    requires
        keyed_join_follows(node, left, right, told),
    ensures
        replay(Map::empty(), told).contains_key(k) == (replay(Map::empty(), left).contains_key(k)
            && replay(Map::empty(), right).contains_key(k)),
        replay(Map::empty(), told).contains_key(k) ==> replay(Map::empty(), told)[k] == (
            replay(Map::empty(), left)[k],
            replay(Map::empty(), right)[k],
        ),
{
    side_of_source(left, node.join.lkey());
    side_of_source(right, node.join.rkey::<K, RV>());
    inner_join_rows::<K, LV, RV>(node, k);
    let _ = lookup(node.join.half.left().rows, k);
    let _ = lookup(node.right@.rows, k);
}

/// A semi join gives the left rows that have the join key of some right row, as they are, and no other.
pub proof fn semi_joined_rows<
    LK: MapKey,
    LV: CellValue,
    RK: MapKey,
    RV: CellValue,
    JK: MapKey,
    FL: RowFn<LK, LV, JK>,
    FR: RightJoinKey<RK, RV, JK>,
>(
    node: JoinNode<LK, LV, RK, RV, JK, LK, LV, FL, FR, Matched>,
    left: Seq<Change<LK::Model, LV::Model>>,
    right: Seq<Change<RK::Model, RV::Model>>,
    told: Seq<Change<LK::Model, LV::Model>>,
    k: LK::Model,
)
    requires
        join_follows(node, left, right, told),
        node.compute_rows == Matched,
    ensures
        replay(Map::empty(), told).contains_key(k) == (replay(Map::empty(), left).contains_key(k)
            && exists|r: RK::Model| #[trigger]
            replay(Map::empty(), right).contains_key(r) && node.right_key.key_of(
                r,
                replay(Map::empty(), right)[r],
            ) == Some(node.left_key.image(k, replay(Map::empty(), left)[k]))),
        replay(Map::empty(), told).contains_key(k) ==> replay(Map::empty(), told)[k] == replay(
            Map::empty(),
            left,
        )[k],
{
    matches_are_owned::<LK, LV, RK, RV>();
    side_of_source(left, node.lkey());
    side_of_source(right, node.rkey());
    semi_join_of_sources::<LK, LV, RK, RV, JK, FL, FR>(node, rows_of(left), rows_of(right), k);
    let l = rows_of(left);
    let w = rows_of(right);
    if l.contains_key(k) {
        let want = Some(node.left_key.image(k, l[k]));
        assert((exists|r: RK::Model|
            #![trigger w.contains_key(r)]
            w.contains_key(r) && (node.rkey())(r, w[r]) == (node.lkey())(k, l[k])) <==> (exists|
            r: RK::Model,
        | #[trigger] w.contains_key(r) && node.right_key.key_of(r, w[r]) == want));
    }
}

/// A left join of rows with several join keys gives each left row, under its key, with the values of
/// `matched`, the right rows that have one of its join keys, one value for each of them, in the same
/// places, each row once however many of the join keys reach it.
pub proof fn multi_joined_rows<
    LK: MapKey,
    LV: CellValue,
    RK: MapKey,
    RV: CellValue,
    JK: MapKey,
    FL: RowFn<LK, LV, Vec<JK>>,
    FR: RightJoinKey<RK, RV, JK>,
>(
    runtime: MultiJoinRuntime<LK, LV, RK, RV, JK, (LV, Vec<RV>), FL, FR, DirectProject<Collected>>,
    left: Seq<Change<LK::Model, LV::Model>>,
    right: Seq<Change<RK::Model, RV::Model>>,
    told: Seq<Change<LK::Model, (LV::Model, Seq<RV::Model>)>>,
    k: LK::Model,
) -> (matched: Seq<(RK::Model, RV::Model)>)
    requires
        multi_join_follows(runtime, left, right, told),
    ensures
        replay(Map::empty(), told).contains_key(k) == replay(Map::empty(), left).contains_key(k),
        replay(Map::empty(), left).contains_key(k) ==> {
            &&& each_once(
                matched,
                replay(Map::empty(), right),
                |r: RK::Model, w: RV::Model|
                    runtime.right_join_key.key_of(r, w) is Some
                        && runtime.left_join_keys.image(k, replay(Map::empty(), left)[k]).contains(
                        runtime.right_join_key.key_of(r, w)->Some_0,
                    ),
            )
            &&& replay(Map::empty(), told)[k].0 == replay(Map::empty(), left)[k]
            &&& replay(Map::empty(), told)[k].1.len() == matched.len()
            &&& forall|i: int|
                0 <= i < matched.len() ==> #[trigger] replay(Map::empty(), told)[k].1[i]
                    == matched[i].1
        },
{
    let matched = multi_join_of_sources::<
        LK,
        LV,
        RK,
        RV,
        JK,
        (LV, Vec<RV>),
        FL,
        FR,
        DirectProject<Collected>,
    >(runtime, left, right, told, k);
    let l = rows_of(left);
    let w = rows_of(right);
    if l.contains_key(k) {
        let has = |r: RK::Model, v: RV::Model|
            runtime.right_join_key.key_of(r, v) is Some && runtime.left_join_keys.image(k, l[k]).contains(
                runtime.right_join_key.key_of(r, v)->Some_0,
            );
        assert forall|r: RK::Model| #[trigger]
            lookup(entries_map(matched), r) == (if w.contains_key(r) && has(r, w[r]) {
                Some(w[r])
            } else {
                None
            }) by {
            let _ = lookup(w, r);
        }
        entries_each_once(matched, w, has);
    }
    let out = collected_row::<LK, LV, RK, RV>(k, l[k], matched);
    matched
}

/// Two joins that work as one give each left row that the first join projects something for, what the
/// second projects from that. The first sees `matched.0`, the first right rows that have the join key of
/// the left row, each once; the second sees `matched.1`, the second right rows that have the join key of
/// what the first gives.
pub proof fn rows_of_two_joins<
    LK: MapKey,
    LV: CellValue,
    RK1: MapKey,
    RV1: CellValue,
    JK1: MapKey,
    MV: CellValue,
    RK2: MapKey,
    RV2: CellValue,
    JK2: MapKey,
    OV: CellValue,
    FL1: RowFn<LK, LV, JK1>,
    FR1: RightJoinKey<RK1, RV1, JK1>,
    P1: StageProject<LK, LV, RK1, RV1, MV>,
    FL2: RowFn<LK, MV, JK2>,
    FR2: RightJoinKey<RK2, RV2, JK2>,
    P2: StageProject<LK, MV, RK2, RV2, OV>,
>(
    kernel: TwoStageKernel<
        LK,
        LV,
        RK1,
        RV1,
        JK1,
        MV,
        RK2,
        RV2,
        JK2,
        OV,
        FL1,
        FR1,
        P1,
        FL2,
        FR2,
        P2,
    >,
    left: Seq<Change<LK::Model, LV::Model>>,
    right1: Seq<Change<RK1::Model, RV1::Model>>,
    right2: Seq<Change<RK2::Model, RV2::Model>>,
    told: Seq<Change<LK::Model, OV::Model>>,
    k: LK::Model,
) -> (matched: (Seq<(RK1::Model, RV1::Model)>, Seq<(RK2::Model, RV2::Model)>))
    requires
        two_joins_follow(kernel, left, right1, right2, told),
    ensures
        !replay(Map::empty(), left).contains_key(k) ==> !replay(Map::empty(), told).contains_key(k),
        replay(Map::empty(), left).contains_key(k) ==> {
            let middle = kernel.config.project1.projected(k, replay(Map::empty(), left)[k], matched.0);
            &&& each_once(
                matched.0,
                replay(Map::empty(), right1),
                |r: RK1::Model, w: RV1::Model|
                    kernel.config.right_key1.key_of(r, w) == Some(
                        kernel.config.left_key1.image(k, replay(Map::empty(), left)[k]),
                    ),
            )
            &&& middle is None ==> !replay(Map::empty(), told).contains_key(k)
            &&& middle matches Some(row) ==> {
                &&& each_once(
                    matched.1,
                    replay(Map::empty(), right2),
                    |r: RK2::Model, w: RV2::Model|
                        kernel.config.right_key2.key_of(r, w) == Some(
                            kernel.config.left_key2.image(k, row),
                        ),
                )
                &&& replay(Map::empty(), told).contains_key(k) == (kernel.config.project2.projected(
                    k,
                    row,
                    matched.1,
                ) is Some)
                &&& replay(Map::empty(), told).contains_key(k) ==> Some(replay(Map::empty(), told)[k])
                    == kernel.config.project2.projected(k, row, matched.1)
            }
        },
{
    let matched = two_joins_told_of_sources::<
        LK,
        LV,
        RK1,
        RV1,
        JK1,
        MV,
        RK2,
        RV2,
        JK2,
        OV,
        FL1,
        FR1,
        P1,
        FL2,
        FR2,
        P2,
    >(kernel, left, right1, right2, told, k);
    let l = rows_of(left);
    if l.contains_key(k) {
        let j = (kernel.lkey1())(k, l[k])->Some_0;
        rows_with_a_join_key(matched.0, rows_of(right1), kernel.rkey1(), j);
        assert((|r: RK1::Model, w: RV1::Model| (kernel.rkey1())(r, w) == Some(j)) =~= (|
            r: RK1::Model,
            w: RV1::Model,
        | kernel.config.right_key1.key_of(r, w) == Some(kernel.config.left_key1.image(k, l[k]))));
        if let Some(row) = (kernel.proj1())(k, l[k], matched.0) {
            let i = (kernel.lkey2())(k, row)->Some_0;
            rows_with_a_join_key(matched.1, rows_of(right2), kernel.rkey2(), i);
            assert((|r: RK2::Model, w: RV2::Model| (kernel.rkey2())(r, w) == Some(i)) =~= (|
                r: RK2::Model,
                w: RV2::Model,
            | kernel.config.right_key2.key_of(r, w) == Some(kernel.config.left_key2.image(k, row))));
        }
    }
    matched
}

/// A projection put into the second of two joins that work as one gives what it gives behind them: the
/// same rows, each with what the function makes of the row that the two joins alone give.
pub proof fn map_fused_into_two_joins<
    LK: MapKey,
    LV: CellValue,
    RK1: MapKey,
    RV1: CellValue,
    JK1: MapKey,
    MV: CellValue,
    RK2: MapKey,
    RV2: CellValue,
    JK2: MapKey,
    OV: CellValue,
    FL1: RowFn<LK, LV, JK1>,
    FR1: RightJoinKey<RK1, RV1, JK1>,
    P1: StageProject<LK, LV, RK1, RV1, MV>,
    FL2: RowFn<LK, MV, JK2>,
    FR2: RightJoinKey<RK2, RV2, JK2>,
    F: RowFn<LK, (MV, Vec<RV2>), OV>,
>(
    plain: TwoStageKernel<
        LK,
        LV,
        RK1,
        RV1,
        JK1,
        MV,
        RK2,
        RV2,
        JK2,
        (MV, Vec<RV2>),
        FL1,
        FR1,
        P1,
        FL2,
        FR2,
        DirectProject<Collected>,
    >,
    fused: TwoStageKernel<
        LK,
        LV,
        RK1,
        RV1,
        JK1,
        MV,
        RK2,
        RV2,
        JK2,
        OV,
        FL1,
        FR1,
        P1,
        FL2,
        FR2,
        JoinProjectionProject<TupleJoinProjection<F>>,
    >,
    left: Seq<Change<LK::Model, LV::Model>>,
    right1: Seq<Change<RK1::Model, RV1::Model>>,
    right2: Seq<Change<RK2::Model, RV2::Model>>,
    told: Seq<Change<LK::Model, (MV::Model, Seq<RV2::Model>)>>,
    mapped: Seq<Change<LK::Model, OV::Model>>,
    k: LK::Model,
)
    requires
        two_joins_follow(plain, left, right1, right2, told),
        two_joins_follow(fused, left, right1, right2, mapped),
        fused.config.left_key1 == plain.config.left_key1,
        fused.config.right_key1 == plain.config.right_key1,
        fused.config.project1 == plain.config.project1,
        fused.config.left_key2 == plain.config.left_key2,
        fused.config.right_key2 == plain.config.right_key2,
    ensures
        replay(Map::empty(), mapped).contains_key(k) == replay(Map::empty(), told).contains_key(k),
        replay(Map::empty(), told).contains_key(k) ==> replay(Map::empty(), mapped)[k]
            == fused.config.project2.0.0.image(k, replay(Map::empty(), told)[k]),
{
    let a = two_joins_told_of_sources::<
        LK,
        LV,
        RK1,
        RV1,
        JK1,
        MV,
        RK2,
        RV2,
        JK2,
        (MV, Vec<RV2>),
        FL1,
        FR1,
        P1,
        FL2,
        FR2,
        DirectProject<Collected>,
    >(plain, left, right1, right2, told, k);
    let b = two_joins_told_of_sources::<
        LK,
        LV,
        RK1,
        RV1,
        JK1,
        MV,
        RK2,
        RV2,
        JK2,
        OV,
        FL1,
        FR1,
        P1,
        FL2,
        FR2,
        JoinProjectionProject<TupleJoinProjection<F>>,
    >(fused, left, right1, right2, mapped, k);
    let l = rows_of(left);
    let f = fused.config.project2.0.0;
    assert(plain.rkey1() == fused.rkey1());
    assert(plain.rkey2() == fused.rkey2());
    if l.contains_key(k) {
        assert(a.0 == b.0);
        if let Some(row) = (plain.proj1())(k, l[k], a.0) {
            assert(a.1 == b.1);
            let out = collected_row::<LK, MV, RK2, RV2>(k, row, a.1);
            let then = ThenMap { project: DirectProject(Collected), map: f, intermediate: PhantomData };
            function_of_collected_row::<LK, MV, RK2, RV2, OV, F>(f, then, k, row, a.1, out.1);
            assert(JoinProjectionProject(TupleJoinProjection(f)) == fused.config.project2);
            assert((plain.proj2())(k, row, a.1) == Some(out));
            assert((fused.proj2())(k, row, a.1) == Some(f.image(k, (row, out.1))));
        }
    }
}

/// What comes out of the stages of a region: the first stage projects the row that it gets and `matched`,
/// the rows of its right source that have the join key of that row, each of them once; what it gives
/// goes through the stages after it, and where it gives nothing, nothing comes out. Through no stage
/// a row comes out as it is.
pub proof fn what_comes_out_of_stages<
    K: MapKey,
    Input: CellValue,
    RK: MapKey,
    RV: CellValue,
    JK: MapKey,
    Mid: CellValue,
    FL: RowFn<K, Input, JK>,
    FR: RightJoinKey<RK, RV, JK>,
    P: StageProject<K, Input, RK, RV, Mid>,
    Tail: SourcedStages<K, Mid>,
>(
    stages: JCons<StageConfig<K, Input, RK, RV, JK, Mid, FL, FR, P>, Tail>,
    sources: StageSources<RK, RV, Tail::Sources>,
    key: K::Model,
    input: Input::Model,
) -> (matched: Seq<(RK::Model, RV::Model)>)
    ensures
        each_once(
            matched,
            replay(Map::empty(), sources.head@),
            |r: RK::Model, w: RV::Model|
                stages.head.right_key.key_of(r, w) == Some(stages.head.left_key.image(key, input)),
        ),
        stages.head.project.projected(key, input, matched) is None ==> SourcedStages::<
            K,
            Input,
        >::comes_out(&stages, sources, key, input) is None,
        stages.head.project.projected(key, input, matched) is Some ==> SourcedStages::<
            K,
            Input,
        >::comes_out(&stages, sources, key, input) == stages.tail.comes_out(
            sources.tail,
            key,
            stages.head.project.projected(key, input, matched)->Some_0,
        ),
        SourcedStages::<K, Input>::comes_out(&JNil, (), key, input) == Some(input),
{
    let j = stages.head.left_key.image(key, input);
    let matched = side_of(sources.head@, stages.rkey()).matches_of(j);
    side_of_source(sources.head@, stages.rkey());
    rows_with_a_join_key(matched, rows_of(sources.head@), stages.rkey(), j);
    assert((|r: RK::Model, w: RV::Model| (stages.rkey())(r, w) == Some(j)) =~= (|
        r: RK::Model,
        w: RV::Model,
    | stages.head.right_key.key_of(r, w) == Some(stages.head.left_key.image(key, input))));
    matched
}

/// Two joins that work as one are divided among shards by the first event with this much work, where there
/// is more than one shard, and stay divided.
pub proof fn when_two_joins_are_divided<
    LK: MapKey,
    LV: CellValue,
    RK1: MapKey,
    RV1: CellValue,
    JK1: MapKey,
    MV: CellValue,
    RK2: MapKey,
    RV2: CellValue,
    JK2: MapKey,
    OV: CellValue,
    FL1: RowFn<LK, LV, JK1>,
    FR1: RightJoinKey<RK1, RV1, JK1>,
    P1: StageProject<LK, LV, RK1, RV1, MV>,
    FL2: RowFn<LK, MV, JK2>,
    FR2: RightJoinKey<RK2, RV2, JK2>,
    P2: StageProject<LK, MV, RK2, RV2, OV>,
>(
    kernel: TwoStageKernel<
        LK,
        LV,
        RK1,
        RV1,
        JK1,
        MV,
        RK2,
        RV2,
        JK2,
        OV,
        FL1,
        FR1,
        P1,
        FL2,
        FR2,
        P2,
    >,
    work: usize,
)
    ensures
        kernel.storage is Sharded ==> kernel.promotes(work),
        kernel.storage is Serial ==> kernel.promotes(work) == (kernel.shard_count > 1 && work >= 8_192),
{
}

} // verus!
