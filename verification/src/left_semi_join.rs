//! Left semi joins: left rows that a right row matches.
use std::marker::PhantomData;
use vstd::prelude::*;

use crate::diff::entries_map;
use crate::foreign_key::{
    ForeignKeyRelation, IdFor, OptionalRightKey, RequiredRightKey, RightJoinKey,
};
use crate::func::{closure_known, closure_laws, image2, pure2, row_closure, RowFn};
use crate::fx::lookup;
use crate::index::{empty_side, entry_keys};
use crate::join_runtime::keyed::{install_join_runtime_via_query, owns, JoinNode};
use crate::join_runtime::rows::computation;
use crate::query::{ByMapKey, MapQuery, PlanProperties, ZeroOrOne};
use crate::row_fns::{Matched, OwnKey, ParentKey};
use crate::value::{CellValue, MapKey};

verus! {

/// The left rows that have a right row that matches them.
pub struct LeftSemiJoinPlan<L, R, LK, LV, RK, RV, JK, FL, FR> {
    pub left: L,
    pub right: R,
    pub left_key: FL,
    pub right_key: FR,
    pub types: PhantomData<(LK, LV, RK, RV, JK)>,
}

impl<
    L: MapQuery<Key = LK, Value = LV>,
    R: MapQuery<Key = RK, Value = RV>,
    LK: MapKey,
    LV: CellValue,
    RK: MapKey,
    RV: CellValue,
    JK: MapKey,
    FL: RowFn<LK, LV, JK>,
    FR: RightJoinKey<RK, RV, JK>,
> PlanProperties for LeftSemiJoinPlan<L, R, LK, LV, RK, RV, JK, FL, FR> {
    type Cardinality = ZeroOrOne;

    type InputPartition = L::OutputPartition;

    type OutputPartition = ByMapKey<LK>;
}

impl<
    L: MapQuery<Key = LK, Value = LV>,
    R: MapQuery<Key = RK, Value = RV>,
    LK: MapKey,
    LV: CellValue,
    RK: MapKey,
    RV: CellValue,
    JK: MapKey,
    FL: RowFn<LK, LV, JK>,
    FR: RightJoinKey<RK, RV, JK>,
> MapQuery for LeftSemiJoinPlan<L, R, LK, LV, RK, RV, JK, FL, FR> {
    type Key = LK;

    type Value = LV;

    open spec fn raw_source(&self) -> bool {
        false
    }

    fn is_raw_source(&self) -> (raw: bool)
        ensures
            !raw,
    {
        false
    }
}

impl<
    L,
    R,
    LK: MapKey,
    LV: CellValue,
    RK: MapKey,
    RV: CellValue,
    JK: MapKey,
    FL: RowFn<LK, LV, JK>,
    FR: RightJoinKey<RK, RV, JK>,
> LeftSemiJoinPlan<L, R, LK, LV, RK, RV, JK, FL, FR> {
    /// The two plans, and the join to put behind them.
    pub fn build_into(self) -> (built: (
        L,
        R,
        JoinNode<LK, LV, RK, RV, JK, LK, LV, FL, FR, Matched>,
    ))
        requires
            pure2::<LK, LV, JK, FL>(self.left_key),
            self.right_key.lawful(),
        ensures
            built.0 == self.left,
            built.1 == self.right,
            built.2.wf(),
            built.2.left_key == self.left_key,
            built.2.right_key == self.right_key,
            built.2.state.left() == empty_side::<LK::Model, LV::Model, JK::Model>(),
            built.2.right@ == empty_side::<RK::Model, RV::Model, JK::Model>(),
            built.2.output().holds(built.2.given(), own_key::<LK::Model>()),
    {
        let node = install_join_runtime_via_query(self.left_key, self.right_key, Matched);
        proof {
            let owner = own_key::<LK::Model>();
            assert(node.output().holds(node.given(), owner));
        }
        (self.left, self.right, node)
    }
}

/// The left row that an output row of a semi join belongs to.
pub open spec fn own_key<LK>() -> spec_fn(LK) -> LK {
    |o: LK| o
}

/// In a semi join each output key belongs to the left row that has it.
pub proof fn matches_are_owned<LK: CellValue, LV: CellValue, RK: CellValue, RV: CellValue>()
    ensures
        owns(
            computation::<LK, LV, RK, RV, LK, LV, Matched>(Matched),
            own_key::<LK::Model>(),
        ),
{
    let compute = computation::<LK, LV, RK, RV, LK, LV, Matched>(Matched);
    let owner = own_key::<LK::Model>();
    assert forall|k: LK::Model, v: LV::Model, r: Seq<(RK::Model, RV::Model)>, o: LK::Model| #[trigger]
        entry_keys(compute(k, v, r)).contains(o) implies owner(o) == k by {
        let keys = entry_keys(compute(k, v, r));
        let i = choose|i: int| 0 <= i < keys.len() && keys[i] == o;
        assert(r.len() > 0);
        assert(compute(k, v, r) == seq![(k, v)]);
    }
}

/// What the rows of a semi join are: a left row is there just where a right row has its join key, with
/// its own value.
pub proof fn semi_join_rows<
    LK: MapKey,
    LV: CellValue,
    RK: MapKey,
    RV: CellValue,
    JK: MapKey,
    FL: RowFn<LK, LV, JK>,
    FR: RightJoinKey<RK, RV, JK>,
>(node: JoinNode<LK, LV, RK, RV, JK, LK, LV, FL, FR, Matched>, k: LK::Model)
    requires
        node.wf(),
        node.output().holds(node.given(), own_key::<LK::Model>()),
    ensures
        lookup(node.output().cache, k) == (if node.state.left().rows.contains_key(k) && (exists|
            r: RK::Model,
        |
            #![trigger node.right@.rows.contains_key(r)]
            node.right@.rows.contains_key(r) && node.right@.keys[r] == node.state.left().keys[k]) {
            Some(node.state.left().rows[k])
        } else {
            None
        }),
{
    let left = node.state.left();
    let right = node.right@;
    let owner = own_key::<LK::Model>();
    let rows = node.given();
    node.right.side_wf();
    assert(lookup(node.output().cache, k) == lookup(entries_map(rows(owner(k))), k));
    if left.rows.contains_key(k) {
        let j = left.keys[k];
        let m = right.matches_of(j);
        if m.len() > 0 {
            let one = seq![(k, left.rows[k])];
            assert(rows(k) == one);
            assert(one.drop_last() =~= Seq::empty());
            assert(entries_map(one) == entries_map(one.drop_last()).insert(k, left.rows[k]));
            let r = right.members_of(j)[0];
            assert(right.member(j, r));
            assert(right.rows.contains_key(r) == right.keys.contains_key(r));
            assert(right.rows.contains_key(r) && right.keys[r] == j);
        } else {
            assert(rows(k) =~= Seq::empty());
            assert forall|r: RK::Model| #[trigger] right.rows.contains_key(r) implies right.keys[r]
                != j by {
                assert(right.keys.contains_key(r));
                if right.keys[r] == j {
                    assert(right.member(j, r));
                }
            }
        }
    } else {
        assert(rows(k) =~= Seq::empty());
    }
}

/// A semi join of two sources: where its sides hold the rows of two maps, a row of the left map is
/// there just where a row of the right map has its join key, with its own value.
pub proof fn semi_join_of_sources<
    LK: MapKey,
    LV: CellValue,
    RK: MapKey,
    RV: CellValue,
    JK: MapKey,
    FL: RowFn<LK, LV, JK>,
    FR: RightJoinKey<RK, RV, JK>,
>(
    node: JoinNode<LK, LV, RK, RV, JK, LK, LV, FL, FR, Matched>,
    left: Map<LK::Model, LV::Model>,
    right: Map<RK::Model, RV::Model>,
    k: LK::Model,
)
    requires
        node.wf(),
        node.output().holds(node.given(), own_key::<LK::Model>()),
        node.state.left().tracks(left, node.lkey()),
        node.right@.tracks(right, node.rkey()),
    ensures
        lookup(node.output().cache, k) == (if left.contains_key(k) && (exists|r: RK::Model|
            #![trigger right.contains_key(r)]
            right.contains_key(r) && (node.rkey())(r, right[r]) == (node.lkey())(k, left[k])) {
            Some(left[k])
        } else {
            None
        }),
{
    let side = node.state.left();
    let rights = node.right@;
    semi_join_rows(node, k);
    assert(lookup(side.rows, k) == lookup(left, k));
    if side.rows.contains_key(k) {
        assert((node.lkey())(k, side.rows[k]) == Some(side.keys[k]));
        assert forall|r: RK::Model|
            #![trigger right.contains_key(r)]
            #![trigger rights.rows.contains_key(r)]
            (right.contains_key(r) && (node.rkey())(r, right[r]) == (node.lkey())(k, left[k])) == (
            rights.rows.contains_key(r) && rights.keys[r] == side.keys[k]) by {
            let _ = lookup(rights.rows, r);
            let _ = lookup(right, r);
            if rights.rows.contains_key(r) {
                assert((node.rkey())(r, rights.rows[r]) == Some(rights.keys[r]));
            }
        }
    }
}

/// Left semi joins: the left rows that a right row matches, as they are.
pub trait LeftSemiJoinExt<K: MapKey, V: CellValue>: MapQuery<Key = K, Value = V> {
    /// Keeps the rows whose key a right row has.
    fn left_semi_join<R: MapQuery<Key = K, Value = RV>, RV: CellValue>(self, right: R) -> (plan:
        LeftSemiJoinPlan<Self, R, K, V, K, RV, K, OwnKey, RequiredRightKey<OwnKey>>)
        ensures
            plan.left == self,
            plan.right == right,
    {
        LeftSemiJoinPlan {
            left: self,
            right,
            left_key: OwnKey,
            right_key: RequiredRightKey(OwnKey),
            types: PhantomData,
        }
    }

    /// Keeps the rows that a right row has as its parent by a relationship.
    fn left_semi_join_fk<Rel: ForeignKeyRelation, R: MapQuery<Value = Rel::Child>>(self, right: R) -> (plan:
        LeftSemiJoinPlan<
        Self,
        R,
        K,
        V,
        R::Key,
        Rel::Child,
        K,
        OwnKey,
        OptionalRightKey<ParentKey<Rel>>,
    >) where Rel::ForeignKey: IdFor<Rel::Parent, MapKey = K>
        ensures
            plan.left == self,
            plan.right == right,
            plan.right_key == OptionalRightKey(ParentKey::<Rel>(PhantomData)),
    {
        LeftSemiJoinPlan {
            left: self,
            right,
            left_key: OwnKey,
            right_key: OptionalRightKey(ParentKey::<Rel>(PhantomData)),
            types: PhantomData,
        }
    }

    /// Keeps the rows whose join key a right row has, by keys that functions make.
    fn left_semi_join_by<
        R: MapQuery<Key = RK, Value = RV>,
        RK: MapKey,
        RV: CellValue,
        JK: MapKey,
        FL: Fn(&K, &V) -> JK + Send + Sync + 'static,
        FR: Fn(&RK, &RV) -> JK + Send + Sync + 'static,
    >(self, right: R, left_key: FL, right_key: FR) -> (plan: LeftSemiJoinPlan<
        Self,
        R,
        K,
        V,
        RK,
        RV,
        JK,
        FL,
        RequiredRightKey<FR>,
    >)
        ensures
            plan.left == self,
            plan.right == right,
            plan.left_key == left_key,
            plan.right_key == RequiredRightKey(right_key),
            row_closure::<K, V, JK, FL>(left_key) ==> closure_known::<K, V, JK, FL>(left_key),
            row_closure::<RK, RV, JK, FR>(right_key) ==> closure_known::<RK, RV, JK, FR>(right_key)
                && RightJoinKey::<RK, RV, JK>::lawful(&plan.right_key),
            forall|k: RK::Model, v: RV::Model| #[trigger]
                RightJoinKey::<RK, RV, JK>::key_of(&plan.right_key, k, v) == Some(
                    image2::<RK, RV, JK, FR>(right_key, k, v),
                ),
    {
        proof {
            if row_closure::<K, V, JK, FL>(left_key) {
                closure_laws::<K, V, JK, FL>(left_key);
            }
            if row_closure::<RK, RV, JK, FR>(right_key) {
                closure_laws::<RK, RV, JK, FR>(right_key);
            }
        }
        LeftSemiJoinPlan {
            left: self,
            right,
            left_key,
            right_key: RequiredRightKey(right_key),
            types: PhantomData,
        }
    }
}

impl<K: MapKey, V: CellValue, M: MapQuery<Key = K, Value = V>> LeftSemiJoinExt<K, V> for M {

}

} // verus!
