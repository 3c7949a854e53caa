//! Inner joins: left rows with right rows that match them.
use std::marker::PhantomData;
use vstd::prelude::*;

use crate::diff::entries_map;
use crate::foreign_key::{
    ForeignKeyRelation, IdFor, OptionalRightKey, RequiredRightKey, RightJoinKey,
};
use crate::func::{closure_known, closure_laws, image2, pure2, row_closure, RowFn};
use crate::fx::lookup;
use crate::index::{empty_side, entry_keys};
use crate::join_runtime::keyed::{install_join_runtime_via_query, owns, JoinNode, KeyedJoinNode};
use crate::join_runtime::rows::computation;
use crate::join_runtime::state::joined_lookup;
use crate::left_join::{owned_join, RelationPlan};
use crate::query::{ByMapKey, Many, MapQuery, PlanProperties, Repartition};
use crate::row_fns::{pairs, FirstMatch, OwnKey, Paired, ParentKey};
use crate::value::{CellValue, MapKey};

verus! {

/// Left and right rows with the same key, under that key.
pub struct InnerJoinByKeyPlan<L, R, K, LV, RV> {
    pub left: L,
    pub right: R,
    pub types: PhantomData<(K, LV, RV)>,
}

impl<
    L: MapQuery<Key = K, Value = LV>,
    R: MapQuery<Key = K, Value = RV>,
    K: MapKey,
    LV: CellValue,
    RV: CellValue,
> PlanProperties for InnerJoinByKeyPlan<L, R, K, LV, RV> {
    type Cardinality = Many;

    type InputPartition = L::OutputPartition;

    type OutputPartition = ByMapKey<K>;
}

impl<
    L: MapQuery<Key = K, Value = LV>,
    R: MapQuery<Key = K, Value = RV>,
    K: MapKey,
    LV: CellValue,
    RV: CellValue,
> MapQuery for InnerJoinByKeyPlan<L, R, K, LV, RV> {
    type Key = K;

    type Value = (LV, RV);

    open spec fn raw_source(&self) -> bool {
        false
    }

    fn is_raw_source(&self) -> (raw: bool)
        ensures
            !raw,
    {
        false
    }
}

impl<L, R, K: MapKey, LV: CellValue, RV: CellValue> InnerJoinByKeyPlan<L, R, K, LV, RV> {
    /// The two plans, and the join to put behind them.
    pub fn build_into(self) -> (built: (
        L,
        R,
        KeyedJoinNode<K, LV, K, RV, K, (LV, RV), OwnKey, RequiredRightKey<OwnKey>, FirstMatch>,
    ))
        ensures
            built.0 == self.left,
            built.1 == self.right,
            built.2.wf(),
            built.2.join.half.left() == empty_side::<K::Model, LV::Model, K::Model>(),
            built.2.right@ == empty_side::<K::Model, RV::Model, K::Model>(),
    {
        (self.left, self.right, owned_join(OwnKey, RequiredRightKey(OwnKey), FirstMatch))
    }
}

/// Left rows with each right row that matches them, under both keys.
pub struct InnerJoinByPairPlan<L, R, LK, LV, RK, RV, JK, FL, FR> {
    pub left: L,
    pub right: R,
    pub left_key: FL,
    pub right_key: FR,
    pub types: PhantomData<(LK, LV, RK, RV, JK)>,
}

impl<
    L: MapQuery<Key = LK, Value = LV>,
    R: MapQuery<Key = RK, Value = RV>,
    LK: MapKey,
    LV: CellValue,
    RK: MapKey,
    RV: CellValue,
    JK: MapKey,
    FL: RowFn<LK, LV, JK>,
    FR: RightJoinKey<RK, RV, JK>,
> PlanProperties for InnerJoinByPairPlan<L, R, LK, LV, RK, RV, JK, FL, FR> {
    type Cardinality = Many;

    type InputPartition = L::OutputPartition;

    type OutputPartition = Repartition<(LK, RK)>;
}

impl<
    L: MapQuery<Key = LK, Value = LV>,
    R: MapQuery<Key = RK, Value = RV>,
    LK: MapKey,
    LV: CellValue,
    RK: MapKey,
    RV: CellValue,
    JK: MapKey,
    FL: RowFn<LK, LV, JK>,
    FR: RightJoinKey<RK, RV, JK>,
> MapQuery for InnerJoinByPairPlan<L, R, LK, LV, RK, RV, JK, FL, FR> {
    type Key = (LK, RK);

    type Value = (LV, RV);

    open spec fn raw_source(&self) -> bool {
        false
    }

    fn is_raw_source(&self) -> (raw: bool)
        ensures
            !raw,
    {
        false
    }
}

impl<
    L,
    R,
    LK: MapKey,
    LV: CellValue,
    RK: MapKey,
    RV: CellValue,
    JK: MapKey,
    FL: RowFn<LK, LV, JK>,
    FR: RightJoinKey<RK, RV, JK>,
> InnerJoinByPairPlan<L, R, LK, LV, RK, RV, JK, FL, FR> {
    /// The two plans, and the join to put behind them.
    pub fn build_into(self) -> (built: (
        L,
        R,
        JoinNode<LK, LV, RK, RV, JK, (LK, RK), (LV, RV), FL, FR, Paired>,
    ))
        requires
            pure2::<LK, LV, JK, FL>(self.left_key),
            self.right_key.lawful(),
        ensures
            built.0 == self.left,
            built.1 == self.right,
            built.2.wf(),
            built.2.left_key == self.left_key,
            built.2.right_key == self.right_key,
            built.2.state.left() == empty_side::<LK::Model, LV::Model, JK::Model>(),
            built.2.right@ == empty_side::<RK::Model, RV::Model, JK::Model>(),
            built.2.output().holds(built.2.given(), pair_owner::<LK::Model, RK::Model>()),
    {
        let node = install_join_runtime_via_query(self.left_key, self.right_key, Paired);
        proof {
            assert(node.output().holds(node.given(), pair_owner::<LK::Model, RK::Model>()));
        }
        (self.left, self.right, node)
    }
}

impl<
    L,
    R,
    LK: MapKey,
    LV: CellValue,
    RK: MapKey,
    RV: CellValue,
    JK: MapKey,
    FL: RowFn<LK, LV, JK>,
    FR: RightJoinKey<RK, RV, JK>,
    Rel,
> RelationPlan<InnerJoinByPairPlan<L, R, LK, LV, RK, RV, JK, FL, FR>, Rel> {
    /// The two plans, and the join to put behind them.
    pub fn build_into(self) -> (built: (
        L,
        R,
        JoinNode<LK, LV, RK, RV, JK, (LK, RK), (LV, RV), FL, FR, Paired>,
    ))
        requires
            pure2::<LK, LV, JK, FL>(self.plan.left_key),
            self.plan.right_key.lawful(),
        ensures
            built.0 == self.plan.left,
            built.1 == self.plan.right,
            built.2.wf(),
            built.2.left_key == self.plan.left_key,
            built.2.right_key == self.plan.right_key,
            built.2.state.left() == empty_side::<LK::Model, LV::Model, JK::Model>(),
            built.2.right@ == empty_side::<RK::Model, RV::Model, JK::Model>(),
            built.2.output().holds(built.2.given(), pair_owner::<LK::Model, RK::Model>()),
    {
        self.plan.build_into()
    }
}

/// The left key of a pair of keys.
pub open spec fn pair_owner<LK, RK>() -> spec_fn((LK, RK)) -> LK {
    |o: (LK, RK)| o.0
}

/// In an inner join under both keys each output key belongs to the left row that it names.
pub proof fn pairs_are_owned<LK: CellValue, LV: CellValue, RK: CellValue, RV: CellValue>()
    ensures
        owns(
            computation::<LK, LV, RK, RV, (LK, RK), (LV, RV), Paired>(Paired),
            pair_owner::<LK::Model, RK::Model>(),
        ),
{
    let compute = computation::<LK, LV, RK, RV, (LK, RK), (LV, RV), Paired>(Paired);
    let owner = pair_owner::<LK::Model, RK::Model>();
    assert forall|
        k: LK::Model,
        v: LV::Model,
        r: Seq<(RK::Model, RV::Model)>,
        o: (LK::Model, RK::Model),
    | #[trigger] entry_keys(compute(k, v, r)).contains(o) implies owner(o) == k by {
        let keys = entry_keys(compute(k, v, r));
        let i = choose|i: int| 0 <= i < keys.len() && keys[i] == o;
        assert(compute(k, v, r) == pairs(k, v, r));
        assert(keys[i] == pairs(k, v, r)[i].0);
    }
}

/// What the rows of an inner join are: a pair of keys is there just where the left key has a row, the
/// right key has a row, and the two rows have the same join key; its value is the two rows.
pub proof fn inner_join_pairs<
    LK: MapKey,
    LV: CellValue,
    RK: MapKey,
    RV: CellValue,
    JK: MapKey,
    FL: RowFn<LK, LV, JK>,
    FR: RightJoinKey<RK, RV, JK>,
>(
    node: JoinNode<LK, LV, RK, RV, JK, (LK, RK), (LV, RV), FL, FR, Paired>,
    k: LK::Model,
    r: RK::Model,
)
    requires
        node.wf(),
        node.output().holds(node.given(), pair_owner::<LK::Model, RK::Model>()),
    ensures
        lookup(node.output().cache, (k, r)) == (if node.state.left().rows.contains_key(k)
            && node.right@.rows.contains_key(r) && node.state.left().keys[k] == node.right@.keys[r] {
            Some((node.state.left().rows[k], node.right@.rows[r]))
        } else {
            None
        }),
{
    let left = node.state.left();
    let right = node.right@;
    let owner = pair_owner::<LK::Model, RK::Model>();
    let rows = node.given();
    node.right.side_wf();
    assert(owner((k, r)) == k);
    assert(lookup(node.output().cache, (k, r)) == lookup(
        entries_map(rows(owner((k, r)))),
        (k, r),
    ));
    if left.rows.contains_key(k) {
        let j = left.keys[k];
        let m = right.matches_of(j);
        assert(rows(k) == pairs(k, left.rows[k], m));
        right.matches_lookup(j, r);
        pairs_lookup(k, left.rows[k], m, r);
    } else {
        assert(rows(k) =~= Seq::empty());
    }
}

proof fn pairs_lookup<LK, LV, RK, RV>(k: LK, v: LV, rights: Seq<(RK, RV)>, r: RK)
    requires
        entry_keys(rights).no_duplicates(),
    ensures
        lookup(entries_map(pairs(k, v, rights)), (k, r)) == (match lookup(entries_map(rights), r) {
            Some(w) => Some((v, w)),
            None => None,
        }),
    decreases rights.len(),
{
    if rights.len() > 0 {
        let rest = rights.drop_last();
        assert(pairs(k, v, rights).drop_last() =~= pairs(k, v, rest));
        assert(entry_keys(rest) =~= entry_keys(rights).drop_last());
        pairs_lookup(k, v, rest, r);
    } else {
        assert(pairs(k, v, rights) =~= Seq::empty());
    }
}

/// An inner join of two sources: where its sides hold the rows of two maps, a pair of keys is there
/// just where both maps have a row for it and the two rows have the same join key; its value is the
/// two rows.
pub proof fn inner_join_of_sources<
    LK: MapKey,
    LV: CellValue,
    RK: MapKey,
    RV: CellValue,
    JK: MapKey,
    FL: RowFn<LK, LV, JK>,
    FR: RightJoinKey<RK, RV, JK>,
>(
    node: JoinNode<LK, LV, RK, RV, JK, (LK, RK), (LV, RV), FL, FR, Paired>,
    left: Map<LK::Model, LV::Model>,
    right: Map<RK::Model, RV::Model>,
    k: LK::Model,
    r: RK::Model,
)
    requires
        node.wf(),
        node.output().holds(node.given(), pair_owner::<LK::Model, RK::Model>()),
        node.state.left().tracks(left, node.lkey()),
        node.right@.tracks(right, node.rkey()),
    ensures
        lookup(node.output().cache, (k, r)) == (if left.contains_key(k) && right.contains_key(r)
            && (node.rkey())(r, right[r]) == (node.lkey())(k, left[k]) {
            Some((left[k], right[r]))
        } else {
            None
        }),
{
    inner_join_pairs(node, k, r);
    assert(lookup(node.state.left().rows, k) == lookup(left, k));
    let _ = lookup(node.right@.rows, r);
    let _ = lookup(right, r);
    if node.right@.rows.contains_key(r) {
        assert((node.rkey())(r, node.right@.rows[r]) == Some(node.right@.keys[r]));
    }
    if node.state.left().rows.contains_key(k) {
        assert((node.lkey())(k, node.state.left().rows[k]) == Some(node.state.left().keys[k]));
    }
}

/// What the rows of an inner join of rows with the same key are: the two rows of each key that both
/// sides have.
pub proof fn inner_join_rows<K: MapKey, LV: CellValue, RV: CellValue>(
    node: KeyedJoinNode<K, LV, K, RV, K, (LV, RV), OwnKey, RequiredRightKey<OwnKey>, FirstMatch>,
    k: K::Model,
)
    requires
        node.wf(),
    ensures
        lookup(node.output(), k) == (if node.join.half.left().rows.contains_key(k)
            && node.right@.rows.contains_key(k) {
            Some((node.join.half.left().rows[k], node.right@.rows[k]))
        } else {
            None
        }),
{
    let left = node.join.half.left();
    let right = node.right@;
    node.right.side_wf();
    joined_lookup(left, right, node.join.proj::<K, RV>(), k);
    if left.rows.contains_key(k) {
        let lkey = node.join.lkey();
        assert(lkey(k, left.rows[k]) == Some(k));
        assert(left.keys[k] == k);
        let names = right.members_of(k);
        if names.len() > 0 {
            let r = names[0];
            let rkey = node.join.rkey::<K, RV>();
            assert(right.member(k, r));
            assert(right.rows.contains_key(r));
            assert(rkey(r, right.rows[r]) == Some(r));
            assert(r == k);
            assert(right.matches_of(k)[0] == (k, right.rows[k]));
        } else if right.rows.contains_key(k) {
            let rkey = node.join.rkey::<K, RV>();
            assert(rkey(k, right.rows[k]) == Some(k));
            assert(right.member(k, k));
        }
    }
}

/// Inner joins: a left row and a right row that match give one row.
pub trait InnerJoinExt<K: MapKey, V: CellValue>: MapQuery<Key = K, Value = V> {
    /// Joins rows with the same key, under that key.
    fn inner_join<R: MapQuery<Key = K, Value = RV>, RV: CellValue>(self, right: R) -> (plan:
        InnerJoinByKeyPlan<Self, R, K, V, RV>)
        ensures
            plan.left == self,
            plan.right == right,
    {
        InnerJoinByKeyPlan { left: self, right, types: PhantomData }
    }

    /// Joins rows with the rows that have them as parents by a relationship, under both keys. A right
    /// row without a parent matches no left row.
    fn inner_join_fk<Rel: ForeignKeyRelation, R: MapQuery<Value = Rel::Child>>(self, right: R) -> (plan:
        RelationPlan<
        InnerJoinByPairPlan<
            Self,
            R,
            K,
            V,
            R::Key,
            Rel::Child,
            K,
            OwnKey,
            OptionalRightKey<ParentKey<Rel>>,
        >,
        Rel,
    >) where Rel::ForeignKey: IdFor<Rel::Parent, MapKey = K>
        ensures
            plan.plan.left == self,
            plan.plan.right == right,
            plan.plan.right_key == OptionalRightKey(ParentKey::<Rel>(PhantomData)),
    {
        RelationPlan::new(
            InnerJoinByPairPlan {
                left: self,
                right,
                left_key: OwnKey,
                right_key: OptionalRightKey(ParentKey::<Rel>(PhantomData)),
                types: PhantomData,
            },
        )
    }

    /// Joins rows by keys that functions make, under both keys.
    fn inner_join_by<
        R: MapQuery<Key = RK, Value = RV>,
        RK: MapKey,
        RV: CellValue,
        JK: MapKey,
        FL: Fn(&K, &V) -> JK + Send + Sync + 'static,
        FR: Fn(&RK, &RV) -> JK + Send + Sync + 'static,
    >(self, right: R, left_key: FL, right_key: FR) -> (plan: InnerJoinByPairPlan<
        Self,
        R,
        K,
        V,
        RK,
        RV,
        JK,
        FL,
        RequiredRightKey<FR>,
    >)
        ensures
            plan.left == self,
            plan.right == right,
            plan.left_key == left_key,
            plan.right_key == RequiredRightKey(right_key),
            row_closure::<K, V, JK, FL>(left_key) ==> closure_known::<K, V, JK, FL>(left_key),
            row_closure::<RK, RV, JK, FR>(right_key) ==> closure_known::<RK, RV, JK, FR>(right_key)
                && RightJoinKey::<RK, RV, JK>::lawful(&plan.right_key),
            forall|k: RK::Model, v: RV::Model| #[trigger]
                RightJoinKey::<RK, RV, JK>::key_of(&plan.right_key, k, v) == Some(
                    image2::<RK, RV, JK, FR>(right_key, k, v),
                ),
    {
        proof {
            if row_closure::<K, V, JK, FL>(left_key) {
                closure_laws::<K, V, JK, FL>(left_key);
            }
            if row_closure::<RK, RV, JK, FR>(right_key) {
                closure_laws::<RK, RV, JK, FR>(right_key);
            }
        }
        InnerJoinByPairPlan {
            left: self,
            right,
            left_key,
            right_key: RequiredRightKey(right_key),
            types: PhantomData,
        }
    }
}

impl<K: MapKey, V: CellValue, M: MapQuery<Key = K, Value = V>> InnerJoinExt<K, V> for M {

}

} // verus!
