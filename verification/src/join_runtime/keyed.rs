//! Joins of two sources as runtimes: rows of both sides come in, changes of the output go out.
use vstd::prelude::*;

use crate::delta::{delta, put_all, put_all_covers};
use crate::diff::{fits_all, replay, steps_of, Change, MapDiff};
use crate::foreign_key::{right_key, RightJoinKey};
use crate::func::{pure2, pure_rows, RowFn, RowsFn};
use crate::fx::lookup;
use crate::index::{empty_side, entry_keys, total_key, Side};
use crate::join_region::declaration::{projection, StageProject};
use crate::join_region::stage_runtime::{named_change_keeps, names_join};
use crate::join_runtime::rows::{
    computation, given_rows, gives, one_giver_throughout, JoinState, OwnedRows,
};
use crate::join_runtime::state::{
    entry_joins, join_seq, joined, joined_lookup, observed_joins, observed_step, KeyedJoin,
    RelationIndex,
};
use crate::map_runtime::{batch_of, emits, emitted_changes};
use crate::ordered_set::extend_new_contains;
use crate::parallel::WorkerPool;
use crate::value::{CellValue, MapKey};

verus! {

/// The functions of a join that gives at most one row for each left row.
pub struct KeyedJoinConfig<FL, FR, P> {
    pub left_key: FL,
    pub right_key: FR,
    pub project: P,
}

/// A join that gives at most one row for each left row, over right rows that are kept elsewhere.
#[verifier::reject_recursive_types(LK)]
#[verifier::reject_recursive_types(LV)]
#[verifier::reject_recursive_types(JK)]
#[verifier::reject_recursive_types(OV)]
pub struct KeyedJoinRuntime<LK: MapKey, LV: CellValue, JK: MapKey, OV: CellValue, FL, FR, P> {
    pub half: KeyedJoin<LK, LV, JK, OV>,
    pub config: KeyedJoinConfig<FL, FR, P>,
}

impl<
    LK: MapKey,
    LV: CellValue,
    JK: MapKey,
    OV: CellValue,
    FL: RowFn<LK, LV, JK>,
    FR,
    P,
> KeyedJoinRuntime<LK, LV, JK, OV, FL, FR, P> {
    /// The functions can be called.
    pub open spec fn lawful<RK: MapKey, RV: CellValue>(&self) -> bool where
        FR: RightJoinKey<RK, RV, JK>,
        P: StageProject<LK, LV, RK, RV, OV>,
     {
        &&& pure2::<LK, LV, JK, FL>(self.config.left_key)
        &&& self.config.right_key.lawful()
        &&& self.config.project.lawful()
    }

    /// The join key of a left row.
    pub open spec fn lkey(&self) -> spec_fn(LK::Model, LV::Model) -> Option<JK::Model> {
        total_key::<LK, LV, JK, FL>(self.config.left_key)
    }

    /// The join key of a right row.
    pub open spec fn rkey<RK: MapKey, RV: CellValue>(&self) -> spec_fn(
        RK::Model,
        RV::Model,
    ) -> Option<JK::Model> where FR: RightJoinKey<RK, RV, JK> {
        right_key::<RK, RV, JK, FR>(self.config.right_key)
    }

    /// The projection of a left row and the right rows that match it.
    pub open spec fn proj<RK: MapKey, RV: CellValue>(&self) -> spec_fn(
        LK::Model,
        LV::Model,
        Seq<(RK::Model, RV::Model)>,
    ) -> Option<OV::Model> where P: StageProject<LK, LV, RK, RV, OV> {
        projection::<LK, LV, RK, RV, OV, P>(self.config.project)
    }

    /// The output is the join of the left rows with these right rows.
    pub open spec fn joins<RK: MapKey, RV: CellValue>(
        &self,
        right: Side<RK::Model, RV::Model, JK::Model>,
    ) -> bool where FR: RightJoinKey<RK, RV, JK>, P: StageProject<LK, LV, RK, RV, OV> {
        &&& self.lawful::<RK, RV>()
        &&& self.half.joins(right, self.proj::<RK, RV>())
    }

    /// The output at a key.
    pub fn get(&self, key: &LK) -> (value: Option<&OV>)
        ensures
            value is Some == self.half.output().contains_key(key.model()),
            value is Some ==> value->Some_0.model() == self.half.output()[key.model()],
    {
        self.half.get(key)
    }

    /// Follows a diff of the left rows, and tells how the output changes: each touched row comes to
    /// what it is joined to with the right rows as they are.
    pub fn apply_left<RK: MapKey, RV: CellValue>(
        &mut self,
        right: &RelationIndex<RK, RV, JK>,
        diff: &MapDiff<LK, LV>,
        pool: Option<&WorkerPool>,
    ) -> (emitted: Option<MapDiff<LK, OV>>) where
        FR: RightJoinKey<RK, RV, JK>,
        P: StageProject<LK, LV, RK, RV, OV>,

        requires
            right.wf(),
            old(self).lawful::<RK, RV>(),
            old(self).half.left().wf(),
        ensures
            final(self).config == old(self).config,
            final(self).half.left() == old(self).half.left().run(diff.steps(), old(self).lkey()),
            final(self).half.left().wf(),
            old(self).joins::<RK, RV>(right@) ==> final(self).joins::<RK, RV>(right@),
            exists|keys: Seq<LK::Model>|
                #![trigger delta(old(self).half.output(), keys, final(self).half.output())]
                old(self).half.left().keys_run(diff.steps(), old(self).lkey(), Seq::empty(), keys)
                    && emits(
                    emitted,
                    delta(old(self).half.output(), keys, final(self).half.output()),
                ) && final(self).half.output() == put_all(
                    old(self).half.output(),
                    keys,
                    joined(final(self).half.left(), right@, old(self).proj::<RK, RV>()),
                ) && fits_all(
                    old(self).half.output(),
                    delta(old(self).half.output(), keys, final(self).half.output()),
                ) && replay(
                    old(self).half.output(),
                    delta(old(self).half.output(), keys, final(self).half.output()),
                ) == final(self).half.output(),
    {
        let changes = self.half.apply_left(
            right,
            diff,
            &self.config.left_key,
            &self.config.project,
            pool,
        );
        batch_of(changes)
    }

    /// Follows a diff of the right rows, and tells how the output changes. A join that maintains the
    /// right rows lets the diff change them; another learns of rows that have been changed.
    pub fn apply_right<RK: MapKey, RV: CellValue>(
        &mut self,
        right: &mut RelationIndex<RK, RV, JK>,
        diff: &MapDiff<RK, RV>,
        maintains: bool,
        pool: Option<&WorkerPool>,
    ) -> (emitted: Option<MapDiff<LK, OV>>) where
        FR: RightJoinKey<RK, RV, JK>,
        P: StageProject<LK, LV, RK, RV, OV>,

        requires
            old(right).wf(),
            old(self).lawful::<RK, RV>(),
            old(self).half.left().wf(),
            maintains ==> old(self).joins::<RK, RV>(old(right)@),
        ensures
            final(right).wf(),
            final(self).config == old(self).config,
            final(self).half.left() == old(self).half.left(),
            maintains ==> {
                &&& final(right)@ == old(right)@.run(diff.steps(), old(self).rkey::<RK, RV>())
                &&& final(self).joins::<RK, RV>(final(right)@)
                &&& exists|joins: Seq<JK::Model>|
                    #![trigger old(self).half.left().extend_members(joins, Seq::empty())]
                    old(right)@.joins_run(
                        diff.steps(),
                        old(self).rkey::<RK, RV>(),
                        Seq::empty(),
                        joins,
                    ) && emits(
                        emitted,
                        delta(
                            old(self).half.output(),
                            old(self).half.left().extend_members(joins, Seq::empty()),
                            final(self).half.output(),
                        ),
                    )
            },
            !maintains ==> {
                let joins = observed_joins(
                    diff.steps(),
                    old(self).rkey::<RK, RV>(),
                    Seq::empty(),
                );
                let keys = old(self).half.left().extend_members(joins, Seq::empty());
                let want = joined(old(self).half.left(), old(right)@, old(self).proj::<RK, RV>());
                &&& final(right)@ == old(right)@
                &&& final(self).half.output() == put_all(old(self).half.output(), keys, want)
                &&& emits(emitted, delta(old(self).half.output(), keys, want))
            },
            emitted is Some ==> fits_all(old(self).half.output(), emitted->Some_0.steps()) && replay(
                old(self).half.output(),
                emitted->Some_0.steps(),
            ) == final(self).half.output(),
            emitted is None ==> final(self).half.output() == old(self).half.output(),
    {
        let changes = if maintains {
            self.half.apply_right(
                right,
                diff,
                &self.config.right_key,
                &self.config.project,
                pool,
            )
        } else {
            self.half.observe_shared_right_diff(
                right,
                diff,
                &self.config.right_key,
                &self.config.project,
                pool,
            )
        };
        let emitted = batch_of(changes);
        proof {
            if emitted is None {
                assert(steps_of(changes@) =~= Seq::empty());
            }
        }
        emitted
    }
}

/// A join over right rows that are kept elsewhere, without left rows.
pub fn install_keyed_join_runtime_with_index<
    LK: MapKey,
    LV: CellValue,
    RK: MapKey,
    RV: CellValue,
    JK: MapKey,
    OV: CellValue,
    FL: RowFn<LK, LV, JK>,
    FR: RightJoinKey<RK, RV, JK>,
    P: StageProject<LK, LV, RK, RV, OV>,
>(left_key: FL, right_key: FR, project: P) -> (runtime: KeyedJoinRuntime<LK, LV, JK, OV, FL, FR, P>)
    requires
        pure2::<LK, LV, JK, FL>(left_key),
        right_key.lawful(),
        project.lawful(),
    ensures
        runtime.config == (KeyedJoinConfig { left_key, right_key, project }),
        runtime.half.left() == empty_side::<LK::Model, LV::Model, JK::Model>(),
        forall|right: Side<RK::Model, RV::Model, JK::Model>| #[trigger]
            runtime.joins::<RK, RV>(right),
{
    let runtime = KeyedJoinRuntime {
        half: KeyedJoin::new(),
        config: KeyedJoinConfig { left_key, right_key, project },
    };
    proof {
        assert forall|right: Side<RK::Model, RV::Model, JK::Model>| #[trigger]
            runtime.joins::<RK, RV>(right) by {
            assert(runtime.half.output() =~= joined(
                runtime.half.left(),
                right,
                runtime.proj::<RK, RV>(),
            ));
        }
    }
    runtime
}

/// A join that gives at most one row for each left row, with right rows of its own.
#[verifier::reject_recursive_types(LK)]
#[verifier::reject_recursive_types(LV)]
#[verifier::reject_recursive_types(RK)]
#[verifier::reject_recursive_types(RV)]
#[verifier::reject_recursive_types(JK)]
#[verifier::reject_recursive_types(OV)]
pub struct KeyedJoinNode<
    LK: MapKey,
    LV: CellValue,
    RK: MapKey,
    RV: CellValue,
    JK: MapKey,
    OV: CellValue,
    FL,
    FR,
    P,
> {
    pub join: KeyedJoinRuntime<LK, LV, JK, OV, FL, FR, P>,
    pub right: RelationIndex<RK, RV, JK>,
}

impl<
    LK: MapKey,
    LV: CellValue,
    RK: MapKey,
    RV: CellValue,
    JK: MapKey,
    OV: CellValue,
    FL: RowFn<LK, LV, JK>,
    FR: RightJoinKey<RK, RV, JK>,
    P: StageProject<LK, LV, RK, RV, OV>,
> KeyedJoinNode<LK, LV, RK, RV, JK, OV, FL, FR, P> {
    /// The output is the join of the rows, and each row has the join key that its function gives.
    pub open spec fn wf(&self) -> bool {
        &&& self.right.wf()
        &&& self.join.joins::<RK, RV>(self.right@)
        &&& self.join.half.left().keyed_by(self.join.lkey())
        &&& self.right@.keyed_by(self.join.rkey::<RK, RV>())
    }

    /// The output.
    pub open spec fn output(&self) -> Map<LK::Model, OV::Model> {
        self.join.half.output()
    }

    /// The output at a key.
    pub fn get(&self, key: &LK) -> (value: Option<&OV>)
        ensures
            value is Some == self.output().contains_key(key.model()),
            value is Some ==> value->Some_0.model() == self.output()[key.model()],
    {
        self.join.get(key)
    }

    /// Follows a diff of the left rows, and tells how the output changes as one batch, or not at all
    /// where nothing changes.
    pub fn apply_left(&mut self, diff: &MapDiff<LK, LV>, pool: Option<&WorkerPool>) -> (emitted: Option<
        MapDiff<LK, OV>,
    >)
        requires
            old(self).wf(),
        ensures
            final(self).wf(),
            final(self).join.config == old(self).join.config,
            final(self).right == old(self).right,
            final(self).join.half.left() == old(self).join.half.left().run(
                diff.steps(),
                old(self).join.lkey(),
            ),
            final(self).join.half.left().rows == replay(
                old(self).join.half.left().rows,
                diff.steps(),
            ),
            exists|keys: Seq<LK::Model>|
                #![trigger delta(old(self).output(), keys, final(self).output())]
                old(self).join.half.left().keys_run(
                    diff.steps(),
                    old(self).join.lkey(),
                    Seq::empty(),
                    keys,
                ) && emits(emitted, delta(old(self).output(), keys, final(self).output()))
                    && fits_all(
                    old(self).output(),
                    delta(old(self).output(), keys, final(self).output()),
                ) && replay(
                    old(self).output(),
                    delta(old(self).output(), keys, final(self).output()),
                ) == final(self).output(),
            fits_all(old(self).output(), emitted_changes(emitted)),
            replay(old(self).output(), emitted_changes(emitted)) == final(self).output(),
    {
        proof {
            self.join.half.left().run_effect(diff.steps(), self.join.lkey());
            self.join.half.left().run_rows(diff.steps(), self.join.lkey());
        }
        let ghost side = self.join.half.left();
        let ghost out = self.output();
        let ghost lkey = self.join.lkey();
        let emitted = self.join.apply_left(&self.right, diff, pool);
        proof {
            let after = self.output();
            let keys = choose|keys: Seq<LK::Model>|
                #![trigger delta(out, keys, after)]
                side.keys_run(diff.steps(), lkey, Seq::empty(), keys) && emits(
                    emitted,
                    delta(out, keys, after),
                ) && fits_all(out, delta(out, keys, after)) && replay(out, delta(out, keys, after))
                    == after;
            assert(emits(emitted, delta(old(self).output(), keys, self.output())));
        }
        emitted
    }

    /// Follows a diff of the right rows, and tells how the output changes as one batch, or not at
    /// all where nothing changes.
    pub fn apply_right(&mut self, diff: &MapDiff<RK, RV>, pool: Option<&WorkerPool>) -> (emitted: Option<
        MapDiff<LK, OV>,
    >)
        requires
            old(self).wf(),
        ensures
            final(self).wf(),
            final(self).join.config == old(self).join.config,
            final(self).join.half.left() == old(self).join.half.left(),
            final(self).right@ == old(self).right@.run(diff.steps(), old(self).join.rkey::<RK, RV>()),
            exists|joins: Seq<JK::Model>|
                #![trigger old(self).join.half.left().extend_members(joins, Seq::empty())]
                old(self).right@.joins_run(
                    diff.steps(),
                    old(self).join.rkey::<RK, RV>(),
                    Seq::empty(),
                    joins,
                ) && emits(
                    emitted,
                    delta(
                        old(self).output(),
                        old(self).join.half.left().extend_members(joins, Seq::empty()),
                        final(self).output(),
                    ),
                ),
            fits_all(old(self).output(), emitted_changes(emitted)),
            replay(old(self).output(), emitted_changes(emitted)) == final(self).output(),
    {
        proof {
            self.right.side_wf();
            self.right@.run_effect(diff.steps(), self.join.rkey::<RK, RV>());
        }
        self.join.apply_right(&mut self.right, diff, true, pool)
    }
}

/// A join of two sources: with right rows of its own, or over right rows that joins with the same
/// relationship share.
#[verifier::reject_recursive_types(LK)]
#[verifier::reject_recursive_types(LV)]
#[verifier::reject_recursive_types(RK)]
#[verifier::reject_recursive_types(RV)]
#[verifier::reject_recursive_types(JK)]
#[verifier::reject_recursive_types(OV)]
pub enum KeyedJoinInstall<
    LK: MapKey,
    LV: CellValue,
    RK: MapKey,
    RV: CellValue,
    JK: MapKey,
    OV: CellValue,
    FL,
    FR,
    P,
> {
    Owned(KeyedJoinNode<LK, LV, RK, RV, JK, OV, FL, FR, P>),
    Shared(KeyedJoinRuntime<LK, LV, JK, OV, FL, FR, P>),
}

/// A join of two sources without rows.
///
/// A relationship alone does not show that two joins have the same right rows. Only a source of
/// rows itself has an identity by which right rows can be shared; a right side that computes its
/// rows keeps them to itself, whatever its relationship.
pub fn install_keyed_join_runtime_via_query<
    LK: MapKey,
    LV: CellValue,
    RK: MapKey,
    RV: CellValue,
    JK: MapKey,
    OV: CellValue,
    FL: RowFn<LK, LV, JK>,
    FR: RightJoinKey<RK, RV, JK>,
    P: StageProject<LK, LV, RK, RV, OV>,
>(related: bool, right_is_raw: bool, left_key: FL, right_key: FR, project: P) -> (install:
    KeyedJoinInstall<LK, LV, RK, RV, JK, OV, FL, FR, P>)
    requires
        pure2::<LK, LV, JK, FL>(left_key),
        right_key.lawful(),
        project.lawful(),
    ensures
        (related && right_is_raw) == (install is Shared),
        match install {
            KeyedJoinInstall::Owned(node) => {
                &&& node.wf()
                &&& node.join.config == (KeyedJoinConfig { left_key, right_key, project })
                &&& node.join.half.left() == empty_side::<LK::Model, LV::Model, JK::Model>()
                &&& node.right@ == empty_side::<RK::Model, RV::Model, JK::Model>()
            },
            KeyedJoinInstall::Shared(runtime) => {
                &&& runtime.config == (KeyedJoinConfig { left_key, right_key, project })
                &&& runtime.half.left() == empty_side::<LK::Model, LV::Model, JK::Model>()
                &&& forall|right: Side<RK::Model, RV::Model, JK::Model>| #[trigger]
                    runtime.joins::<RK, RV>(right)
            },
        },
{
    let runtime = install_keyed_join_runtime_with_index::<LK, LV, RK, RV, JK, OV, FL, FR, P>(
        left_key,
        right_key,
        project,
    );
    if related && right_is_raw {
        KeyedJoinInstall::Shared(runtime)
    } else {
        let right: RelationIndex<RK, RV, JK> = RelationIndex::new();
        let node = KeyedJoinNode { join: runtime, right };
        proof {
            assert(node.join.joins::<RK, RV>(node.right@));
        }
        KeyedJoinInstall::Owned(node)
    }
}

proof fn observed_distinct<RK, RV, JK>(
    steps: Seq<Change<RK, RV>>,
    jk: spec_fn(RK, RV) -> Option<JK>,
)
    ensures
        observed_joins(steps, jk, Seq::empty()).no_duplicates(),
    decreases steps.len(),
{
    if steps.len() > 0 {
        observed_distinct(steps.drop_last(), jk);
        extend_new_contains(
            observed_joins(steps.drop_last(), jk, Seq::empty()),
            observed_step(steps.last(), jk),
        );
    }
}

/// Each change names the join key that its row had, and where one begins anew, the changes together
/// name each join key that rows had until then.
pub open spec fn names_each<RK, RV, JK>(
    side: Side<RK, RV, JK>,
    steps: Seq<Change<RK, RV>>,
    jk: spec_fn(RK, RV) -> Option<JK>,
) -> bool {
    forall|i: int|
        0 <= i < steps.len() ==> names_join(#[trigger] side.run(steps.take(i), jk), steps[i], jk) && (
        steps[i] is Initial ==> forall|k: RK| #[trigger]
            side.run(steps.take(i), jk).keys.contains_key(k) ==> observed_joins(
                steps,
                jk,
                Seq::empty(),
            ).contains(side.run(steps.take(i), jk).keys[k]))
}

/// Rows that come without a join key among them bring none of that join key.
proof fn load_without<RK, RV, JK>(
    side: Side<RK, RV, JK>,
    entries: Seq<(RK, RV)>,
    jk: spec_fn(RK, RV) -> Option<JK>,
    j: JK,
)
    requires
        forall|k: RK| #[trigger] side.keys.contains_key(k) ==> side.keys[k] != j,
        !entry_joins(entries, jk).contains(j),
    ensures
        forall|k: RK| #[trigger]
            side.load(entries, jk).keys.contains_key(k) ==> side.load(entries, jk).keys[k] != j,
    decreases entries.len(),
{
    if entries.len() > 0 {
        let rest = entries.drop_last();
        let (k, v) = entries.last();
        let before = entry_joins(rest, jk);
        let last = join_seq(jk(k, v));
        assert(entry_joins(entries, jk) == before + last);
        assert(!before.contains(j)) by {
            if before.contains(j) {
                let i = choose|i: int| 0 <= i < before.len() && before[i] == j;
                assert((before + last)[i] == j);
            }
        }
        assert(jk(k, v) != Some(j)) by {
            if jk(k, v) == Some(j) {
                assert((before + last)[before.len() as int] == j);
            }
        }
        load_without(side, rest, jk, j);
        let mid = side.load(rest, jk);
        let after = side.load(entries, jk);
        assert(after == mid.set(k, v, jk(k, v)));
        assert forall|x: RK| #[trigger] after.keys.contains_key(x) implies after.keys[x] != j by {
            if x != k {
                assert(mid.keys.contains_key(x));
            }
        }
    }
}

proof fn no_members<RK, RV, JK>(side: Side<RK, RV, JK>, j: JK)
    requires
        side.wf(),
        forall|k: RK| #[trigger] side.keys.contains_key(k) ==> side.keys[k] != j,
    ensures
        side.matches_of(j) == Seq::<(RK, RV)>::empty(),
{
    let members = side.members_of(j);
    if members.len() > 0 {
        let k = members[0];
        assert(members.contains(k));
        assert(side.member(j, k));
        assert(side.keys.contains_key(k));
    }
    assert(side.matches_of(j) =~= Seq::<(RK, RV)>::empty());
}

proof fn observed_contains<RK, RV, JK>(
    steps: Seq<Change<RK, RV>>,
    jk: spec_fn(RK, RV) -> Option<JK>,
    n: int,
    j: JK,
)
    requires
        0 <= n < steps.len(),
        observed_step(steps[n], jk).contains(j),
    ensures
        observed_joins(steps, jk, Seq::empty()).contains(j),
    decreases steps.len(),
{
    let rest = steps.drop_last();
    observed_distinct(rest, jk);
    extend_new_contains(
        observed_joins(rest, jk, Seq::empty()),
        observed_step(steps.last(), jk),
    );
    if n < rest.len() {
        observed_contains(rest, jk, n, j);
    }
}

proof fn unnamed_rows_stay<RK, RV, JK>(
    side: Side<RK, RV, JK>,
    steps: Seq<Change<RK, RV>>,
    jk: spec_fn(RK, RV) -> Option<JK>,
    n: int,
    j: JK,
)
    requires
        side.wf(),
        0 <= n <= steps.len(),
        names_each(side, steps, jk),
        !observed_joins(steps, jk, Seq::empty()).contains(j),
    ensures
        side.run(steps.take(n), jk).matches_of(j) == side.matches_of(j),
    decreases n,
{
    if n == 0 {
        assert(steps.take(0) =~= Seq::empty());
    } else {
        unnamed_rows_stay(side, steps, jk, n - 1, j);
        let mid = side.run(steps.take(n - 1), jk);
        side.run_effect(steps.take(n - 1), jk);
        assert(steps.take(n).drop_last() =~= steps.take(n - 1));
        assert(!observed_step(steps[n - 1], jk).contains(j)) by {
            if observed_step(steps[n - 1], jk).contains(j) {
                observed_contains(steps, jk, n - 1, j);
            }
        }
        assert(names_join(mid, steps[n - 1], jk));
        match steps[n - 1] {
            Change::Initial { entries } => {
                mid.step_effect(steps[n - 1], jk);
                assert forall|k: RK| #[trigger] mid.keys.contains_key(k) implies mid.keys[k] != j by {}
                no_members(mid, j);
                load_without(empty_side::<RK, RV, JK>(), entries, jk, j);
                no_members(mid.step(steps[n - 1], jk), j);
            },
            _ => {
                named_change_keeps(mid, steps[n - 1], jk, j);
            },
        }
    }
}

/// Joins that share right rows agree. A join learns of a diff once another join has let it change the
/// right rows. By then each row of its output is joined to the right rows as they were, or as they are
/// where a left row came meanwhile. Learning of the diff brings the whole output to the join of its
/// left rows with the right rows as they are, where the diff names the join keys that its rows had,
/// and those that rows had before a new beginning in it.
pub proof fn observer_joins<LK, LV, RK, RV, JK, OV>(
    output: Map<LK, OV>,
    left: Side<LK, LV, JK>,
    right: Side<RK, RV, JK>,
    steps: Seq<Change<RK, RV>>,
    jk: spec_fn(RK, RV) -> Option<JK>,
    project: spec_fn(LK, LV, Seq<(RK, RV)>) -> Option<OV>,
)
    requires
        left.wf(),
        right.wf(),
        names_each(right, steps, jk),
        forall|k: LK| #[trigger]
            lookup(output, k) == lookup(joined(left, right, project), k) || lookup(output, k)
                == lookup(joined(left, right.run(steps, jk), project), k),
    ensures
        put_all(
            output,
            left.extend_members(observed_joins(steps, jk, Seq::empty()), Seq::empty()),
            joined(left, right.run(steps, jk), project),
        ) == joined(left, right.run(steps, jk), project),
{
    let joins = observed_joins(steps, jk, Seq::empty());
    let after = right.run(steps, jk);
    let keys = left.extend_members(joins, Seq::empty());
    let want = joined(left, after, project);
    left.extend_members_effect(joins, Seq::empty());
    assert forall|k: LK| !keys.contains(k) implies #[trigger] lookup(output, k) == lookup(want, k) by {
        joined_lookup(left, right, project, k);
        joined_lookup(left, after, project, k);
        if left.rows.contains_key(k) {
            assert(left.keys.contains_key(k));
            let j = left.keys[k];
            assert(!joins.contains(j));
            unnamed_rows_stay(right, steps, jk, steps.len() as int, j);
            assert(steps.take(steps.len() as int) =~= steps);
        }
    }
    put_all_covers(output, keys, want);
}

/// Each output key that a function computes from a left row belongs to that row.
pub open spec fn owns<LK, LV, RK, RV, OK, OV>(
    compute: spec_fn(LK, LV, Seq<(RK, RV)>) -> Seq<(OK, OV)>,
    owner: spec_fn(OK) -> LK,
) -> bool {
    forall|k: LK, v: LV, r: Seq<(RK, RV)>, o: OK| #[trigger]
        entry_keys(compute(k, v, r)).contains(o) ==> owner(o) == k
}

proof fn given_rows_owned<LK, LV, RK, RV, JK, OK, OV>(
    left: Side<LK, LV, JK>,
    right: Side<RK, RV, JK>,
    compute: spec_fn(LK, LV, Seq<(RK, RV)>) -> Seq<(OK, OV)>,
    owner: spec_fn(OK) -> LK,
)
    requires
        owns(compute, owner),
    ensures
        forall|k: LK, o: OK| #[trigger]
            entry_keys(given_rows(left, right, compute)(k)).contains(o) ==> owner(o) == k,
{
}

/// A join that gives any number of rows for each left row, with right rows of its own.
#[verifier::reject_recursive_types(LK)]
#[verifier::reject_recursive_types(LV)]
#[verifier::reject_recursive_types(RK)]
#[verifier::reject_recursive_types(RV)]
#[verifier::reject_recursive_types(JK)]
#[verifier::reject_recursive_types(OK)]
#[verifier::reject_recursive_types(OV)]
pub struct JoinNode<
    LK: MapKey,
    LV: CellValue,
    RK: MapKey,
    RV: CellValue,
    JK: MapKey,
    OK: MapKey,
    OV: CellValue,
    FL,
    FR,
    FO,
> {
    pub state: JoinState<LK, LV, JK, OK, OV>,
    pub right: RelationIndex<RK, RV, JK>,
    pub left_key: FL,
    pub right_key: FR,
    pub compute_rows: FO,
}

impl<
    LK: MapKey,
    LV: CellValue,
    RK: MapKey,
    RV: CellValue,
    JK: MapKey,
    OK: MapKey,
    OV: CellValue,
    FL: RowFn<LK, LV, JK>,
    FR: RightJoinKey<RK, RV, JK>,
    FO: RowsFn<LK, LV, RK, RV, Vec<(OK, OV)>>,
> JoinNode<LK, LV, RK, RV, JK, OK, OV, FL, FR, FO> {
    /// The functions can be called, and each row has the join key that its function gives.
    pub open spec fn wf(&self) -> bool {
        &&& self.state.wf()
        &&& self.right.wf()
        &&& pure2::<LK, LV, JK, FL>(self.left_key)
        &&& self.right_key.lawful()
        &&& pure_rows::<LK, LV, RK, RV, Vec<(OK, OV)>, FO>(self.compute_rows)
        &&& self.state.left().keyed_by(self.lkey())
        &&& self.right@.keyed_by(self.rkey())
    }

    /// The join key of a left row.
    pub open spec fn lkey(&self) -> spec_fn(LK::Model, LV::Model) -> Option<JK::Model> {
        total_key::<LK, LV, JK, FL>(self.left_key)
    }

    /// The join key of a right row.
    pub open spec fn rkey(&self) -> spec_fn(RK::Model, RV::Model) -> Option<JK::Model> {
        right_key::<RK, RV, JK, FR>(self.right_key)
    }

    /// What is computed from a left row and the right rows that match it.
    pub open spec fn compute(&self) -> spec_fn(
        LK::Model,
        LV::Model,
        Seq<(RK::Model, RV::Model)>,
    ) -> Seq<(OK::Model, OV::Model)> {
        computation::<LK, LV, RK, RV, OK, OV, FO>(self.compute_rows)
    }

    /// The rows that each left key gives.
    pub open spec fn given(&self) -> spec_fn(LK::Model) -> Seq<(OK::Model, OV::Model)> {
        given_rows(self.state.left(), self.right@, self.compute())
    }

    /// The output, and the left rows that have given it.
    pub open spec fn output(&self) -> OwnedRows<LK::Model, OK::Model, OV::Model> {
        self.state.output()
    }

    /// The output at a key.
    pub fn get(&self, key: &OK) -> (value: Option<&OV>)
        ensures
            value is Some == self.output().cache.contains_key(key.model()),
            value is Some ==> value->Some_0.model() == self.output().cache[key.model()],
    {
        self.state.get(key)
    }

    /// Follows a diff of the left rows, and tells how the output changes as one batch, or not at all
    /// where nothing changes. Where each output key belongs to one left row, the output stays what
    /// the left rows give.
    pub fn apply_left(&mut self, diff: &MapDiff<LK, LV>) -> (emitted: Option<MapDiff<OK, OV>>)
        requires
            old(self).wf(),
        ensures
            final(self).wf(),
            final(self).left_key == old(self).left_key,
            final(self).right_key == old(self).right_key,
            final(self).compute_rows == old(self).compute_rows,
            final(self).right == old(self).right,
            final(self).state.left() == old(self).state.left().run(diff.steps(), old(self).lkey()),
            exists|keys: Seq<LK::Model>|
                #![trigger old(self).output().give_all(keys, final(self).given())]
                old(self).state.left().keys_run(diff.steps(), old(self).lkey(), Seq::empty(), keys)
                    && final(self).output() == old(self).output().give_all(keys, final(self).given())
                    && emits(emitted, old(self).output().told_all(keys, final(self).given())) && (
                old(self).output().holds_union(old(self).given()) && one_giver_throughout(
                    old(self).given(),
                    final(self).given(),
                    keys,
                ) ==> final(self).output().holds_union(final(self).given())),
            fits_all(old(self).output().cache, emitted_changes(emitted)),
            replay(old(self).output().cache, emitted_changes(emitted)) == final(self).output().cache,
            forall|owner: spec_fn(OK::Model) -> LK::Model| #[trigger]
                owns(old(self).compute(), owner) && old(self).output().holds(
                    old(self).given(),
                    owner,
                ) ==> final(self).output().holds(final(self).given(), owner),
    {
        let ghost side = self.state.left();
        let ghost lkey = self.lkey();
        let ghost start = self.output();
        let ghost before = self.given();
        proof {
            side.run_effect(diff.steps(), lkey);
        }
        let changes = self.state.apply_left(&self.right, diff, &self.left_key, &self.compute_rows);
        let emitted = batch_of(changes);
        proof {
            let after = self.given();
            let keys = choose|keys: Seq<LK::Model>|
                #![trigger start.give_all(keys, after)]
                side.keys_run(diff.steps(), lkey, Seq::empty(), keys) && self.output()
                    == start.give_all(keys, after) && steps_of(changes@) == start.told_all(
                    keys,
                    after,
                );
            assert(self.output() == start.give_all(keys, after));
            side.keys_run_effect(diff.steps(), lkey, Seq::empty(), keys);
            assert forall|x: LK::Model| !keys.contains(x) implies #[trigger] after(x) == before(x) by {
                assert(side.run(diff.steps(), lkey).same_at(side, x));
                if side.rows.contains_key(x) {
                    assert(lookup(side.rows, x) == lookup(self.state.left().rows, x));
                    assert(side.keys.contains_key(x));
                } else {
                    assert(lookup(side.rows, x) == lookup(self.state.left().rows, x));
                }
            }
            if start.holds_union(before) && one_giver_throughout(before, after, keys) {
                start.give_all_holds_union(keys, before, after);
            }
            assert forall|owner: spec_fn(OK::Model) -> LK::Model| #[trigger]
                owns(old(self).compute(), owner) && start.holds(before, owner) implies self.output().holds(
                after,
                owner,
            ) by {
                given_rows_owned(side, self.right@, self.compute(), owner);
                given_rows_owned(self.state.left(), self.right@, self.compute(), owner);
                start.give_all_holds(keys, before, after, owner);
            }
            if emitted is None {
                assert(steps_of(changes@) =~= Seq::empty());
            }
        }
        emitted
    }

    /// Follows a diff of the right rows, and tells how the output changes as one batch, or not at
    /// all where nothing changes. Where each output key belongs to one left row, the output stays
    /// what the left rows give.
    pub fn apply_right(&mut self, diff: &MapDiff<RK, RV>) -> (emitted: Option<MapDiff<OK, OV>>)
        requires
            old(self).wf(),
        ensures
            final(self).wf(),
            final(self).left_key == old(self).left_key,
            final(self).right_key == old(self).right_key,
            final(self).compute_rows == old(self).compute_rows,
            final(self).state.left() == old(self).state.left(),
            final(self).right@ == old(self).right@.run(diff.steps(), old(self).rkey()),
            exists|joins: Seq<JK::Model>|
                #![trigger old(self).state.left().extend_members(joins, Seq::empty())]
                old(self).right@.joins_run(diff.steps(), old(self).rkey(), Seq::empty(), joins)
                    && final(self).output() == old(self).output().give_all(
                    old(self).state.left().extend_members(joins, Seq::empty()),
                    final(self).given(),
                ) && emits(
                    emitted,
                    old(self).output().told_all(
                        old(self).state.left().extend_members(joins, Seq::empty()),
                        final(self).given(),
                    ),
                ) && (old(self).output().holds_union(old(self).given()) && one_giver_throughout(
                    old(self).given(),
                    final(self).given(),
                    old(self).state.left().extend_members(joins, Seq::empty()),
                ) ==> final(self).output().holds_union(final(self).given())),
            fits_all(old(self).output().cache, emitted_changes(emitted)),
            replay(old(self).output().cache, emitted_changes(emitted)) == final(self).output().cache,
            forall|owner: spec_fn(OK::Model) -> LK::Model| #[trigger]
                owns(old(self).compute(), owner) && old(self).output().holds(
                    old(self).given(),
                    owner,
                ) ==> final(self).output().holds(final(self).given(), owner),
    {
        let ghost side = self.state.left();
        let ghost rights = self.right@;
        let ghost rkey = self.rkey();
        let ghost start = self.output();
        let ghost before = self.given();
        proof {
            self.right.side_wf();
            rights.run_effect(diff.steps(), rkey);
        }
        let changes = self.state.apply_right(
            &mut self.right,
            diff,
            &self.right_key,
            &self.compute_rows,
        );
        let emitted = batch_of(changes);
        proof {
            let after = self.given();
            let joins = choose|joins: Seq<JK::Model>|
                #![trigger side.extend_members(joins, Seq::empty())]
                rights.joins_run(diff.steps(), rkey, Seq::empty(), joins) && self.output()
                    == start.give_all(side.extend_members(joins, Seq::empty()), after) && steps_of(
                    changes@,
                ) == start.told_all(side.extend_members(joins, Seq::empty()), after);
            let keys = side.extend_members(joins, Seq::empty());
            assert(self.output() == start.give_all(keys, after));
            rights.joins_run_effect(diff.steps(), rkey, Seq::empty(), joins);
            side.extend_members_effect(joins, Seq::empty());
            assert forall|x: LK::Model| !keys.contains(x) implies #[trigger] after(x) == before(x) by {
                if side.rows.contains_key(x) {
                    assert(side.keys.contains_key(x));
                    assert(!joins.contains(side.keys[x]));
                    assert(self.right@.matches_of(side.keys[x]) == rights.matches_of(side.keys[x]));
                }
            }
            if start.holds_union(before) && one_giver_throughout(before, after, keys) {
                start.give_all_holds_union(keys, before, after);
            }
            assert forall|owner: spec_fn(OK::Model) -> LK::Model| #[trigger]
                owns(old(self).compute(), owner) && start.holds(before, owner) implies self.output().holds(
                after,
                owner,
            ) by {
                given_rows_owned(side, rights, self.compute(), owner);
                given_rows_owned(side, self.right@, self.compute(), owner);
                start.give_all_holds(keys, before, after, owner);
            }
            if emitted is None {
                assert(steps_of(changes@) =~= Seq::empty());
            }
        }
        emitted
    }
}

/// A join that gives any number of rows for each left row, without rows.
pub fn install_join_runtime_via_query<
    LK: MapKey,
    LV: CellValue,
    RK: MapKey,
    RV: CellValue,
    JK: MapKey,
    OK: MapKey,
    OV: CellValue,
    FL: RowFn<LK, LV, JK>,
    FR: RightJoinKey<RK, RV, JK>,
    FO: RowsFn<LK, LV, RK, RV, Vec<(OK, OV)>>,
>(left_key: FL, right_key: FR, compute_rows: FO) -> (node: JoinNode<
    LK,
    LV,
    RK,
    RV,
    JK,
    OK,
    OV,
    FL,
    FR,
    FO,
>)
    requires
        pure2::<LK, LV, JK, FL>(left_key),
        right_key.lawful(),
        pure_rows::<LK, LV, RK, RV, Vec<(OK, OV)>, FO>(compute_rows),
    ensures
        node.wf(),
        node.left_key == left_key,
        node.right_key == right_key,
        node.compute_rows == compute_rows,
        node.state.left() == empty_side::<LK::Model, LV::Model, JK::Model>(),
        node.right@ == empty_side::<RK::Model, RV::Model, JK::Model>(),
        node.output().cache == Map::<OK::Model, OV::Model>::empty(),
        forall|owner: spec_fn(OK::Model) -> LK::Model| #[trigger]
            node.output().holds(node.given(), owner),
        node.output().holds_union(node.given()),
{
    let node = JoinNode {
        state: JoinState::new(),
        right: RelationIndex::new(),
        left_key,
        right_key,
        compute_rows,
    };
    proof {
        assert(node.output().holds_union(node.given())) by {
            assert forall|k: LK::Model|
                #![trigger node.output().keys_of(k)]
                node.output().keys_of(k).no_duplicates() && (forall|o: OK::Model|
                    node.output().keys_of(k).contains(o) <==> gives(node.given(), k, o)) by {
                assert(node.given()(k) =~= Seq::empty());
            }
        }
        assert forall|owner: spec_fn(OK::Model) -> LK::Model| #[trigger]
            node.output().holds(node.given(), owner) by {
            assert forall|o: OK::Model| #[trigger] lookup(node.output().cache, o) == lookup(
                crate::diff::entries_map((node.given())(owner(o))),
                o,
            ) by {
                assert(node.given()(owner(o)) =~= Seq::empty());
            }
            assert forall|k: LK::Model|
                #![trigger node.output().keys_of(k)]
                node.output().keys_of(k).no_duplicates() && (forall|o: OK::Model|
                    node.output().keys_of(k).contains(o) <==> entry_keys(
                        node.given()(k),
                    ).contains(o)) by {
                assert(node.given()(k) =~= Seq::empty());
            }
        }
    }
    node
}

} // verus!
