//! Joins and their sources: what a join has told leads to what it makes of the rows of its sources,
//! however the diffs of the sources have come in turn.
use vstd::prelude::*;

use crate::diff::{entries_map, fits_all, replay, replay_concat, Change};
use crate::foreign_key::RightJoinKey;
use crate::func::{RowFn, RowsFn};
use crate::fx::lookup;
use crate::index::{empty_side, matches_source, rows_of, side_of, side_of_source, Side};
use crate::join_region::declaration::StageProject;
use crate::join_runtime::keyed::{owns, JoinNode, KeyedJoinNode};
use crate::join_runtime::rows::gives;
use crate::join_runtime::state::joined_lookup;
use crate::join_runtime::two_stage::{two_joins_of_sources, TwoStageKernel};
use crate::value::{CellValue, MapKey};

verus! {

/// A join of rows has followed its sources: its sides hold the rows that they have led to, and what it
/// has told, replayed on no rows, leads to its output.
pub open spec fn keyed_join_follows<
    LK: MapKey,
    LV: CellValue,
    RK: MapKey,
    RV: CellValue,
    JK: MapKey,
    OV: CellValue,
    FL: RowFn<LK, LV, JK>,
    FR: RightJoinKey<RK, RV, JK>,
    P: StageProject<LK, LV, RK, RV, OV>,
>(
    node: KeyedJoinNode<LK, LV, RK, RV, JK, OV, FL, FR, P>,
    left: Seq<Change<LK::Model, LV::Model>>,
    right: Seq<Change<RK::Model, RV::Model>>,
    told: Seq<Change<LK::Model, OV::Model>>,
) -> bool {
    &&& node.wf()
    &&& node.join.half.left() == side_of(left, node.join.lkey())
    &&& node.right@ == side_of(right, node.join.rkey::<RK, RV>())
    &&& fits_all(Map::empty(), told)
    &&& rows_of(told) == node.output()
}

/// A new join of rows has followed sources that have told nothing, and has told nothing.
pub proof fn keyed_join_begins<
    LK: MapKey,
    LV: CellValue,
    RK: MapKey,
    RV: CellValue,
    JK: MapKey,
    OV: CellValue,
    FL: RowFn<LK, LV, JK>,
    FR: RightJoinKey<RK, RV, JK>,
    P: StageProject<LK, LV, RK, RV, OV>,
>(node: KeyedJoinNode<LK, LV, RK, RV, JK, OV, FL, FR, P>)
    requires
        node.wf(),
        node.join.half.left() == empty_side::<LK::Model, LV::Model, JK::Model>(),
        node.right@ == empty_side::<RK::Model, RV::Model, JK::Model>(),
    ensures
        keyed_join_follows(node, Seq::empty(), Seq::empty(), Seq::empty()),
{
    assert(node.output() =~= Map::empty());
}

/// A join of rows that takes a diff of its left source goes on following its sources.
pub proof fn keyed_join_follows_left<
    LK: MapKey,
    LV: CellValue,
    RK: MapKey,
    RV: CellValue,
    JK: MapKey,
    OV: CellValue,
    FL: RowFn<LK, LV, JK>,
    FR: RightJoinKey<RK, RV, JK>,
    P: StageProject<LK, LV, RK, RV, OV>,
>(
    before: KeyedJoinNode<LK, LV, RK, RV, JK, OV, FL, FR, P>,
    left: Seq<Change<LK::Model, LV::Model>>,
    right: Seq<Change<RK::Model, RV::Model>>,
    told: Seq<Change<LK::Model, OV::Model>>,
    steps: Seq<Change<LK::Model, LV::Model>>,
    after: KeyedJoinNode<LK, LV, RK, RV, JK, OV, FL, FR, P>,
    more: Seq<Change<LK::Model, OV::Model>>,
)
    requires
        keyed_join_follows(before, left, right, told),
        after.wf(),
        after.join.config == before.join.config,
        after.right == before.right,
        after.join.half.left() == before.join.half.left().run(steps, before.join.lkey()),
        fits_all(before.output(), more),
        replay(before.output(), more) == after.output(),
    ensures
        keyed_join_follows(after, left + steps, right, told + more),
{
    empty_side::<LK::Model, LV::Model, JK::Model>().run_concat(left, steps, before.join.lkey());
    replay_concat(Map::empty(), told, more);
}

/// A join of rows that takes a diff of its right source goes on following its sources.
pub proof fn keyed_join_follows_right<
    LK: MapKey,
    LV: CellValue,
    RK: MapKey,
    RV: CellValue,
    JK: MapKey,
    OV: CellValue,
    FL: RowFn<LK, LV, JK>,
    FR: RightJoinKey<RK, RV, JK>,
    P: StageProject<LK, LV, RK, RV, OV>,
>(
    before: KeyedJoinNode<LK, LV, RK, RV, JK, OV, FL, FR, P>,
    left: Seq<Change<LK::Model, LV::Model>>,
    right: Seq<Change<RK::Model, RV::Model>>,
    told: Seq<Change<LK::Model, OV::Model>>,
    steps: Seq<Change<RK::Model, RV::Model>>,
    after: KeyedJoinNode<LK, LV, RK, RV, JK, OV, FL, FR, P>,
    more: Seq<Change<LK::Model, OV::Model>>,
)
    requires
        keyed_join_follows(before, left, right, told),
        after.wf(),
        after.join.config == before.join.config,
        after.join.half.left() == before.join.half.left(),
        after.right@ == before.right@.run(steps, before.join.rkey::<RK, RV>()),
        fits_all(before.output(), more),
        replay(before.output(), more) == after.output(),
    ensures
        keyed_join_follows(after, left, right + steps, told + more),
{
    empty_side::<RK::Model, RV::Model, JK::Model>().run_concat(
        right,
        steps,
        before.join.rkey::<RK, RV>(),
    );
    replay_concat(Map::empty(), told, more);
}

/// What a join of rows has told, replayed on no rows, gives for each row of the left source what the
/// join projects from it and from `matched`, the rows of the right source that have its join key, each
/// of them once, in the order in which they got it; and it gives nothing else.
pub proof fn keyed_join_of_sources<
    LK: MapKey,
    LV: CellValue,
    RK: MapKey,
    RV: CellValue,
    JK: MapKey,
    OV: CellValue,
    FL: RowFn<LK, LV, JK>,
    FR: RightJoinKey<RK, RV, JK>,
    P: StageProject<LK, LV, RK, RV, OV>,
>(
    node: KeyedJoinNode<LK, LV, RK, RV, JK, OV, FL, FR, P>,
    left: Seq<Change<LK::Model, LV::Model>>,
    right: Seq<Change<RK::Model, RV::Model>>,
    told: Seq<Change<LK::Model, OV::Model>>,
    key: LK::Model,
) -> (matched: Seq<(RK::Model, RV::Model)>)
    requires
        keyed_join_follows(node, left, right, told),
    ensures
        lookup(rows_of(told), key) == (match lookup(rows_of(left), key) {
            Some(value) => (node.join.proj::<RK, RV>())(key, value, matched),
            None => None,
        }),
        rows_of(left).contains_key(key) ==> matches_source(
            matched,
            rows_of(right),
            node.join.rkey::<RK, RV>(),
            (node.join.lkey())(key, rows_of(left)[key])->Some_0,
        ),
        rows_of(left).contains_key(key) ==> matched == side_of(
            right,
            node.join.rkey::<RK, RV>(),
        ).matches_of((node.join.lkey())(key, rows_of(left)[key])->Some_0),
{
    let side = node.join.half.left();
    side_of_source(left, node.join.lkey());
    side_of_source(right, node.join.rkey::<RK, RV>());
    joined_lookup(side, node.right@, node.join.proj::<RK, RV>(), key);
    assert(lookup(side.rows, key) == lookup(rows_of(left), key));
    if rows_of(left).contains_key(key) {
        assert(side.rows.contains_key(key));
        assert((node.join.lkey())(key, side.rows[key]) == Some(side.keys[key]));
        node.right@.matches_of(side.keys[key])
    } else {
        Seq::empty()
    }
}

/// A join that gives any number of rows for each left row has followed its sources: its sides hold the
/// rows that they have led to, what it has told, replayed on no rows, leads to its output, and where each
/// output key belongs to one left row, that row gives what the output has there.
pub open spec fn join_follows<
    LK: MapKey,
    LV: CellValue,
    RK: MapKey,
    RV: CellValue,
    JK: MapKey,
    OK: MapKey,
    OV: CellValue,
    FL: RowFn<LK, LV, JK>,
    FR: RightJoinKey<RK, RV, JK>,
    FO: RowsFn<LK, LV, RK, RV, Vec<(OK, OV)>>,
>(
    node: JoinNode<LK, LV, RK, RV, JK, OK, OV, FL, FR, FO>,
    left: Seq<Change<LK::Model, LV::Model>>,
    right: Seq<Change<RK::Model, RV::Model>>,
    told: Seq<Change<OK::Model, OV::Model>>,
) -> bool {
    &&& node.wf()
    &&& node.state.left() == side_of(left, node.lkey())
    &&& node.right@ == side_of(right, node.rkey())
    &&& fits_all(Map::empty(), told)
    &&& rows_of(told) == node.output().cache
    &&& forall|owner: spec_fn(OK::Model) -> LK::Model| #[trigger]
        owns(node.compute(), owner) ==> node.output().holds(node.given(), owner)
}

/// A new join has followed sources that have told nothing, and has told nothing.
pub proof fn join_begins<
    LK: MapKey,
    LV: CellValue,
    RK: MapKey,
    RV: CellValue,
    JK: MapKey,
    OK: MapKey,
    OV: CellValue,
    FL: RowFn<LK, LV, JK>,
    FR: RightJoinKey<RK, RV, JK>,
    FO: RowsFn<LK, LV, RK, RV, Vec<(OK, OV)>>,
>(node: JoinNode<LK, LV, RK, RV, JK, OK, OV, FL, FR, FO>)
    requires
        node.wf(),
        node.state.left() == empty_side::<LK::Model, LV::Model, JK::Model>(),
        node.right@ == empty_side::<RK::Model, RV::Model, JK::Model>(),
        node.output().cache == Map::<OK::Model, OV::Model>::empty(),
        forall|owner: spec_fn(OK::Model) -> LK::Model| #[trigger]
            node.output().holds(node.given(), owner),
    ensures
        join_follows(node, Seq::empty(), Seq::empty(), Seq::empty()),
{
}

/// A join that takes a diff of its left source goes on following its sources.
pub proof fn join_follows_left<
    LK: MapKey,
    LV: CellValue,
    RK: MapKey,
    RV: CellValue,
    JK: MapKey,
    OK: MapKey,
    OV: CellValue,
    FL: RowFn<LK, LV, JK>,
    FR: RightJoinKey<RK, RV, JK>,
    FO: RowsFn<LK, LV, RK, RV, Vec<(OK, OV)>>,
>(
    before: JoinNode<LK, LV, RK, RV, JK, OK, OV, FL, FR, FO>,
    left: Seq<Change<LK::Model, LV::Model>>,
    right: Seq<Change<RK::Model, RV::Model>>,
    told: Seq<Change<OK::Model, OV::Model>>,
    steps: Seq<Change<LK::Model, LV::Model>>,
    after: JoinNode<LK, LV, RK, RV, JK, OK, OV, FL, FR, FO>,
    more: Seq<Change<OK::Model, OV::Model>>,
)
    requires
        join_follows(before, left, right, told),
        after.wf(),
        after.left_key == before.left_key,
        after.right_key == before.right_key,
        after.right == before.right,
        after.state.left() == before.state.left().run(steps, before.lkey()),
        after.compute_rows == before.compute_rows,
        fits_all(before.output().cache, more),
        replay(before.output().cache, more) == after.output().cache,
        forall|owner: spec_fn(OK::Model) -> LK::Model| #[trigger]
            owns(before.compute(), owner) && before.output().holds(before.given(), owner)
                ==> after.output().holds(after.given(), owner),
    ensures
        join_follows(after, left + steps, right, told + more),
{
    empty_side::<LK::Model, LV::Model, JK::Model>().run_concat(left, steps, before.lkey());
    assert forall|owner: spec_fn(OK::Model) -> LK::Model| #[trigger]
        owns(after.compute(), owner) implies after.output().holds(after.given(), owner) by {
        assert(owns(before.compute(), owner));
    }
    replay_concat(Map::empty(), told, more);
}

/// A join that takes a diff of its right source goes on following its sources.
pub proof fn join_follows_right<
    LK: MapKey,
    LV: CellValue,
    RK: MapKey,
    RV: CellValue,
    JK: MapKey,
    OK: MapKey,
    OV: CellValue,
    FL: RowFn<LK, LV, JK>,
    FR: RightJoinKey<RK, RV, JK>,
    FO: RowsFn<LK, LV, RK, RV, Vec<(OK, OV)>>,
>(
    before: JoinNode<LK, LV, RK, RV, JK, OK, OV, FL, FR, FO>,
    left: Seq<Change<LK::Model, LV::Model>>,
    right: Seq<Change<RK::Model, RV::Model>>,
    told: Seq<Change<OK::Model, OV::Model>>,
    steps: Seq<Change<RK::Model, RV::Model>>,
    after: JoinNode<LK, LV, RK, RV, JK, OK, OV, FL, FR, FO>,
    more: Seq<Change<OK::Model, OV::Model>>,
)
    requires
        join_follows(before, left, right, told),
        after.wf(),
        after.left_key == before.left_key,
        after.right_key == before.right_key,
        after.state.left() == before.state.left(),
        after.right@ == before.right@.run(steps, before.rkey()),
        after.compute_rows == before.compute_rows,
        fits_all(before.output().cache, more),
        replay(before.output().cache, more) == after.output().cache,
        forall|owner: spec_fn(OK::Model) -> LK::Model| #[trigger]
            owns(before.compute(), owner) && before.output().holds(before.given(), owner)
                ==> after.output().holds(after.given(), owner),
    ensures
        join_follows(after, left, right + steps, told + more),
{
    empty_side::<RK::Model, RV::Model, JK::Model>().run_concat(right, steps, before.rkey());
    assert forall|owner: spec_fn(OK::Model) -> LK::Model| #[trigger]
        owns(after.compute(), owner) implies after.output().holds(after.given(), owner) by {
        assert(owns(before.compute(), owner));
    }
    replay_concat(Map::empty(), told, more);
}

/// What a left row gives in a join of sources: what is computed from it and from `matched`, the rows of
/// the right source that have its join key, each of them once.
pub proof fn join_gives_of_sources<
    LK: MapKey,
    LV: CellValue,
    RK: MapKey,
    RV: CellValue,
    JK: MapKey,
    OK: MapKey,
    OV: CellValue,
    FL: RowFn<LK, LV, JK>,
    FR: RightJoinKey<RK, RV, JK>,
    FO: RowsFn<LK, LV, RK, RV, Vec<(OK, OV)>>,
>(
    node: JoinNode<LK, LV, RK, RV, JK, OK, OV, FL, FR, FO>,
    left: Seq<Change<LK::Model, LV::Model>>,
    right: Seq<Change<RK::Model, RV::Model>>,
    key: LK::Model,
) -> (matched: Seq<(RK::Model, RV::Model)>)
    requires
        node.wf(),
        node.state.left() == side_of(left, node.lkey()),
        node.right@ == side_of(right, node.rkey()),
    ensures
        (node.given())(key) == (match lookup(rows_of(left), key) {
            Some(value) => (node.compute())(key, value, matched),
            None => Seq::empty(),
        }),
        rows_of(left).contains_key(key) ==> matches_source(
            matched,
            rows_of(right),
            node.rkey(),
            (node.lkey())(key, rows_of(left)[key])->Some_0,
        ),
        rows_of(left).contains_key(key) ==> matched == side_of(right, node.rkey()).matches_of(
            (node.lkey())(key, rows_of(left)[key])->Some_0,
        ),
{
    let side = node.state.left();
    side_of_source(left, node.lkey());
    side_of_source(right, node.rkey());
    assert(lookup(side.rows, key) == lookup(rows_of(left), key));
    if rows_of(left).contains_key(key) {
        assert(side.rows.contains_key(key));
        assert((node.lkey())(key, side.rows[key]) == Some(side.keys[key]));
        node.right@.matches_of(side.keys[key])
    } else {
        Seq::empty()
    }
}

/// Where each output key belongs to one left row, what a join has told, replayed on no rows, gives under
/// an output key what the row of the left source that owns it gives there.
pub proof fn owned_join_of_sources<
    LK: MapKey,
    LV: CellValue,
    RK: MapKey,
    RV: CellValue,
    JK: MapKey,
    OK: MapKey,
    OV: CellValue,
    FL: RowFn<LK, LV, JK>,
    FR: RightJoinKey<RK, RV, JK>,
    FO: RowsFn<LK, LV, RK, RV, Vec<(OK, OV)>>,
>(
    node: JoinNode<LK, LV, RK, RV, JK, OK, OV, FL, FR, FO>,
    left: Seq<Change<LK::Model, LV::Model>>,
    right: Seq<Change<RK::Model, RV::Model>>,
    told: Seq<Change<OK::Model, OV::Model>>,
    owner: spec_fn(OK::Model) -> LK::Model,
    key: OK::Model,
) -> (matched: Seq<(RK::Model, RV::Model)>)
    requires
        join_follows(node, left, right, told),
        owns(node.compute(), owner),
    ensures
        lookup(rows_of(told), key) == (match lookup(rows_of(left), owner(key)) {
            Some(value) => lookup(
                entries_map((node.compute())(owner(key), value, matched)),
                key,
            ),
            None => None,
        }),
        rows_of(left).contains_key(owner(key)) ==> matches_source(
            matched,
            rows_of(right),
            node.rkey(),
            (node.lkey())(owner(key), rows_of(left)[owner(key)])->Some_0,
        ),
{
    join_gives_of_sources(node, left, right, owner(key))
}

/// Where no two left rows give the same output key, what a join has told, replayed on no rows, is the
/// union of what the left rows give: under each output key that a left row gives its value, and nothing
/// under a key that none gives.
pub proof fn joined_union_of_sources<
    LK: MapKey,
    LV: CellValue,
    RK: MapKey,
    RV: CellValue,
    JK: MapKey,
    OK: MapKey,
    OV: CellValue,
    FL: RowFn<LK, LV, JK>,
    FR: RightJoinKey<RK, RV, JK>,
    FO: RowsFn<LK, LV, RK, RV, Vec<(OK, OV)>>,
>(
    node: JoinNode<LK, LV, RK, RV, JK, OK, OV, FL, FR, FO>,
    left: Seq<Change<LK::Model, LV::Model>>,
    right: Seq<Change<RK::Model, RV::Model>>,
    told: Seq<Change<OK::Model, OV::Model>>,
)
    requires
        join_follows(node, left, right, told),
        node.output().holds_union(node.given()),
    ensures
        forall|k: LK::Model, o: OK::Model| #[trigger]
            gives(node.given(), k, o) ==> rows_of(left).contains_key(k) && lookup(
                rows_of(told),
                o,
            ) == lookup(entries_map((node.given())(k)), o),
        forall|o: OK::Model| #[trigger]
            rows_of(told).contains_key(o) ==> exists|k: LK::Model|
                #[trigger] gives(node.given(), k, o),
{
    assert forall|k: LK::Model, o: OK::Model| #[trigger] gives(node.given(), k, o) implies rows_of(left).contains_key(
        k,
    ) by {
        join_gives_of_sources(node, left, right, k);
    }
}

/// Two joins have followed their three sources: their sides hold the rows of the sources, and what they
/// have told, replayed on no rows, leads to their output.
pub open spec fn two_joins_follow<
    LK: MapKey,
    LV: CellValue,
    RK1: MapKey,
    RV1: CellValue,
    JK1: MapKey,
    MV: CellValue,
    RK2: MapKey,
    RV2: CellValue,
    JK2: MapKey,
    OV: CellValue,
    FL1: RowFn<LK, LV, JK1>,
    FR1: RightJoinKey<RK1, RV1, JK1>,
    P1: StageProject<LK, LV, RK1, RV1, MV>,
    FL2: RowFn<LK, MV, JK2>,
    FR2: RightJoinKey<RK2, RV2, JK2>,
    P2: StageProject<LK, MV, RK2, RV2, OV>,
>(
    kernel: TwoStageKernel<
        LK,
        LV,
        RK1,
        RV1,
        JK1,
        MV,
        RK2,
        RV2,
        JK2,
        OV,
        FL1,
        FR1,
        P1,
        FL2,
        FR2,
        P2,
    >,
    left: Seq<Change<LK::Model, LV::Model>>,
    right1: Seq<Change<RK1::Model, RV1::Model>>,
    right2: Seq<Change<RK2::Model, RV2::Model>>,
    told: Seq<Change<LK::Model, OV::Model>>,
) -> bool {
    &&& kernel.sound()
    &&& kernel.left1() == side_of(left, kernel.lkey1())
    &&& kernel.right1() == side_of(right1, kernel.rkey1())
    &&& kernel.right2() == side_of(right2, kernel.rkey2())
    &&& fits_all(Map::empty(), told)
    &&& rows_of(told) == kernel.output()
}

/// New joins have followed sources that have told nothing, and have told nothing.
pub proof fn two_joins_begin<
    LK: MapKey,
    LV: CellValue,
    RK1: MapKey,
    RV1: CellValue,
    JK1: MapKey,
    MV: CellValue,
    RK2: MapKey,
    RV2: CellValue,
    JK2: MapKey,
    OV: CellValue,
    FL1: RowFn<LK, LV, JK1>,
    FR1: RightJoinKey<RK1, RV1, JK1>,
    P1: StageProject<LK, LV, RK1, RV1, MV>,
    FL2: RowFn<LK, MV, JK2>,
    FR2: RightJoinKey<RK2, RV2, JK2>,
    P2: StageProject<LK, MV, RK2, RV2, OV>,
>(
    kernel: TwoStageKernel<
        LK,
        LV,
        RK1,
        RV1,
        JK1,
        MV,
        RK2,
        RV2,
        JK2,
        OV,
        FL1,
        FR1,
        P1,
        FL2,
        FR2,
        P2,
    >,
)
    requires
        kernel.sound(),
        kernel.left1() == empty_side::<LK::Model, LV::Model, JK1::Model>(),
        kernel.right1() == empty_side::<RK1::Model, RV1::Model, JK1::Model>(),
        kernel.right2() == empty_side::<RK2::Model, RV2::Model, JK2::Model>(),
        kernel.output() == Map::<LK::Model, OV::Model>::empty(),
    ensures
        two_joins_follow(kernel, Seq::empty(), Seq::empty(), Seq::empty(), Seq::empty()),
{
}

/// Two joins that take a diff of the left source, one that tells the truth about its rows, go on
/// following their sources.
pub proof fn two_joins_follow_left<
    LK: MapKey,
    LV: CellValue,
    RK1: MapKey,
    RV1: CellValue,
    JK1: MapKey,
    MV: CellValue,
    RK2: MapKey,
    RV2: CellValue,
    JK2: MapKey,
    OV: CellValue,
    FL1: RowFn<LK, LV, JK1>,
    FR1: RightJoinKey<RK1, RV1, JK1>,
    P1: StageProject<LK, LV, RK1, RV1, MV>,
    FL2: RowFn<LK, MV, JK2>,
    FR2: RightJoinKey<RK2, RV2, JK2>,
    P2: StageProject<LK, MV, RK2, RV2, OV>,
>(
    before: TwoStageKernel<
        LK,
        LV,
        RK1,
        RV1,
        JK1,
        MV,
        RK2,
        RV2,
        JK2,
        OV,
        FL1,
        FR1,
        P1,
        FL2,
        FR2,
        P2,
    >,
    left: Seq<Change<LK::Model, LV::Model>>,
    right1: Seq<Change<RK1::Model, RV1::Model>>,
    right2: Seq<Change<RK2::Model, RV2::Model>>,
    told: Seq<Change<LK::Model, OV::Model>>,
    steps: Seq<Change<LK::Model, LV::Model>>,
    after: TwoStageKernel<
        LK,
        LV,
        RK1,
        RV1,
        JK1,
        MV,
        RK2,
        RV2,
        JK2,
        OV,
        FL1,
        FR1,
        P1,
        FL2,
        FR2,
        P2,
    >,
    more: Seq<Change<LK::Model, OV::Model>>,
)
    requires
        two_joins_follow(before, left, right1, right2, told),
        fits_all(rows_of(left), steps),
        after.config == before.config,
        after.left1() == before.left1().run(steps, before.lkey1()),
        after.right1() == before.right1(),
        after.right2() == before.right2(),
        before.sound() && before.left1().admits_all(steps, before.lkey1()) ==> after.sound()
            && fits_all(before.output(), more) && replay(before.output(), more) == after.output(),
    ensures
        two_joins_follow(after, left + steps, right1, right2, told + more),
{
    side_of_source(left, before.lkey1());
    tracked_rows_within(before.left1(), rows_of(left), before.lkey1());
    before.left1().fitting_steps_are_admitted(rows_of(left), steps, before.lkey1());
    empty_side::<LK::Model, LV::Model, JK1::Model>().run_concat(left, steps, before.lkey1());
    replay_concat(Map::empty(), told, more);
}

/// Two joins that take a diff of the first right source, one that tells the truth about its rows, go on
/// following their sources.
pub proof fn two_joins_follow_first_right<
    LK: MapKey,
    LV: CellValue,
    RK1: MapKey,
    RV1: CellValue,
    JK1: MapKey,
    MV: CellValue,
    RK2: MapKey,
    RV2: CellValue,
    JK2: MapKey,
    OV: CellValue,
    FL1: RowFn<LK, LV, JK1>,
    FR1: RightJoinKey<RK1, RV1, JK1>,
    P1: StageProject<LK, LV, RK1, RV1, MV>,
    FL2: RowFn<LK, MV, JK2>,
    FR2: RightJoinKey<RK2, RV2, JK2>,
    P2: StageProject<LK, MV, RK2, RV2, OV>,
>(
    before: TwoStageKernel<
        LK,
        LV,
        RK1,
        RV1,
        JK1,
        MV,
        RK2,
        RV2,
        JK2,
        OV,
        FL1,
        FR1,
        P1,
        FL2,
        FR2,
        P2,
    >,
    left: Seq<Change<LK::Model, LV::Model>>,
    right1: Seq<Change<RK1::Model, RV1::Model>>,
    right2: Seq<Change<RK2::Model, RV2::Model>>,
    told: Seq<Change<LK::Model, OV::Model>>,
    steps: Seq<Change<RK1::Model, RV1::Model>>,
    after: TwoStageKernel<
        LK,
        LV,
        RK1,
        RV1,
        JK1,
        MV,
        RK2,
        RV2,
        JK2,
        OV,
        FL1,
        FR1,
        P1,
        FL2,
        FR2,
        P2,
    >,
    more: Seq<Change<LK::Model, OV::Model>>,
)
    requires
        two_joins_follow(before, left, right1, right2, told),
        fits_all(rows_of(right1), steps),
        after.config == before.config,
        after.left1() == before.left1(),
        after.right1() == before.right1().run(steps, before.rkey1()),
        after.right2() == before.right2(),
        before.sound() && before.right1().admits_all(steps, before.rkey1()) ==> after.sound()
            && fits_all(before.output(), more) && replay(before.output(), more) == after.output(),
    ensures
        two_joins_follow(after, left, right1 + steps, right2, told + more),
{
    side_of_source(right1, before.rkey1());
    tracked_rows_within(before.right1(), rows_of(right1), before.rkey1());
    before.right1().fitting_steps_are_admitted(rows_of(right1), steps, before.rkey1());
    empty_side::<RK1::Model, RV1::Model, JK1::Model>().run_concat(right1, steps, before.rkey1());
    replay_concat(Map::empty(), told, more);
}

/// Two joins that take a diff of the second right source, one that tells the truth about its rows, go on
/// following their sources.
pub proof fn two_joins_follow_second_right<
    LK: MapKey,
    LV: CellValue,
    RK1: MapKey,
    RV1: CellValue,
    JK1: MapKey,
    MV: CellValue,
    RK2: MapKey,
    RV2: CellValue,
    JK2: MapKey,
    OV: CellValue,
    FL1: RowFn<LK, LV, JK1>,
    FR1: RightJoinKey<RK1, RV1, JK1>,
    P1: StageProject<LK, LV, RK1, RV1, MV>,
    FL2: RowFn<LK, MV, JK2>,
    FR2: RightJoinKey<RK2, RV2, JK2>,
    P2: StageProject<LK, MV, RK2, RV2, OV>,
>(
    before: TwoStageKernel<
        LK,
        LV,
        RK1,
        RV1,
        JK1,
        MV,
        RK2,
        RV2,
        JK2,
        OV,
        FL1,
        FR1,
        P1,
        FL2,
        FR2,
        P2,
    >,
    left: Seq<Change<LK::Model, LV::Model>>,
    right1: Seq<Change<RK1::Model, RV1::Model>>,
    right2: Seq<Change<RK2::Model, RV2::Model>>,
    told: Seq<Change<LK::Model, OV::Model>>,
    steps: Seq<Change<RK2::Model, RV2::Model>>,
    after: TwoStageKernel<
        LK,
        LV,
        RK1,
        RV1,
        JK1,
        MV,
        RK2,
        RV2,
        JK2,
        OV,
        FL1,
        FR1,
        P1,
        FL2,
        FR2,
        P2,
    >,
    more: Seq<Change<LK::Model, OV::Model>>,
)
    requires
        two_joins_follow(before, left, right1, right2, told),
        fits_all(rows_of(right2), steps),
        after.config == before.config,
        after.left1() == before.left1(),
        after.right1() == before.right1(),
        after.right2() == before.right2().run(steps, before.rkey2()),
        before.sound() && before.right2().admits_all(steps, before.rkey2()) ==> after.sound()
            && fits_all(before.output(), more) && replay(before.output(), more) == after.output(),
    ensures
        two_joins_follow(after, left, right1, right2 + steps, told + more),
{
    side_of_source(right2, before.rkey2());
    tracked_rows_within(before.right2(), rows_of(right2), before.rkey2());
    before.right2().fitting_steps_are_admitted(rows_of(right2), steps, before.rkey2());
    empty_side::<RK2::Model, RV2::Model, JK2::Model>().run_concat(right2, steps, before.rkey2());
    replay_concat(Map::empty(), told, more);
}

/// What two joins have told, replayed on no rows, gives for each row of the left source what the second
/// join makes of what the first makes of it, and nothing else. The first sees `matched.0`, the rows of
/// the first right source that have the row's join key, each once; the second sees `matched.1`, those of
/// the second right source that have the join key of what the first gives.
pub proof fn two_joins_told_of_sources<
    LK: MapKey,
    LV: CellValue,
    RK1: MapKey,
    RV1: CellValue,
    JK1: MapKey,
    MV: CellValue,
    RK2: MapKey,
    RV2: CellValue,
    JK2: MapKey,
    OV: CellValue,
    FL1: RowFn<LK, LV, JK1>,
    FR1: RightJoinKey<RK1, RV1, JK1>,
    P1: StageProject<LK, LV, RK1, RV1, MV>,
    FL2: RowFn<LK, MV, JK2>,
    FR2: RightJoinKey<RK2, RV2, JK2>,
    P2: StageProject<LK, MV, RK2, RV2, OV>,
>(
    kernel: TwoStageKernel<
        LK,
        LV,
        RK1,
        RV1,
        JK1,
        MV,
        RK2,
        RV2,
        JK2,
        OV,
        FL1,
        FR1,
        P1,
        FL2,
        FR2,
        P2,
    >,
    left: Seq<Change<LK::Model, LV::Model>>,
    right1: Seq<Change<RK1::Model, RV1::Model>>,
    right2: Seq<Change<RK2::Model, RV2::Model>>,
    told: Seq<Change<LK::Model, OV::Model>>,
    key: LK::Model,
) -> (matched: (Seq<(RK1::Model, RV1::Model)>, Seq<(RK2::Model, RV2::Model)>))
    requires
        two_joins_follow(kernel, left, right1, right2, told),
    ensures
        lookup(rows_of(told), key) == (match lookup(rows_of(left), key) {
            Some(value) => match (kernel.proj1())(key, value, matched.0) {
                Some(middle) => (kernel.proj2())(key, middle, matched.1),
                None => None,
            },
            None => None,
        }),
        rows_of(left).contains_key(key) ==> matches_source(
            matched.0,
            rows_of(right1),
            kernel.rkey1(),
            (kernel.lkey1())(key, rows_of(left)[key])->Some_0,
        ),
        rows_of(left).contains_key(key) && (kernel.proj1())(key, rows_of(left)[key], matched.0) is Some
            ==> matches_source(
            matched.1,
            rows_of(right2),
            kernel.rkey2(),
            (kernel.lkey2())(key, (kernel.proj1())(key, rows_of(left)[key], matched.0)->Some_0)->Some_0,
        ),
        rows_of(left).contains_key(key) ==> matched.0 == side_of(
            right1,
            kernel.rkey1(),
        ).matches_of((kernel.lkey1())(key, rows_of(left)[key])->Some_0),
        rows_of(left).contains_key(key) && (kernel.proj1())(
            key,
            rows_of(left)[key],
            matched.0,
        ) is Some ==> matched.1 == side_of(right2, kernel.rkey2()).matches_of(
            (kernel.lkey2())(
                key,
                (kernel.proj1())(key, rows_of(left)[key], matched.0)->Some_0,
            )->Some_0,
        ),
{
    side_of_source(left, kernel.lkey1());
    side_of_source(right1, kernel.rkey1());
    side_of_source(right2, kernel.rkey2());
    two_joins_of_sources(kernel, rows_of(left), rows_of(right1), rows_of(right2), key)
}

proof fn tracked_rows_within<K, V, J>(
    side: Side<K, V, J>,
    m: Map<K, V>,
    jk: spec_fn(K, V) -> Option<J>,
)
    requires
        side.tracks(m, jk),
    ensures
        side.within(m),
{
    assert forall|k: K| #[trigger] side.rows.contains_key(k) implies m.contains_key(k) by {
        assert(lookup(side.rows, k) is Some);
        assert(lookup(m, k) is Some);
    }
}

} // verus!
