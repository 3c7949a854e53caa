//! Left joins of rows that have several join keys.
use std::marker::PhantomData;
use vstd::prelude::*;

use crate::foreign_key::RequiredRightKey;
use crate::func::{closure_known, closure_laws, pure2, row_closure, RowFn};
use crate::index::empty_side;
use crate::join_region::declaration::DirectProject;
use crate::multi_join_runtime::{install_keyed_multi_join_runtime_via_query, MultiJoinRuntime};
use crate::query::{ByMapKey, ExactlyOne, MapQuery, PlanProperties};
use crate::row_fns::Collected;
use crate::value::{CellValue, MapKey};

verus! {

/// Each left row with the values of the right rows that match any of its join keys, each right row
/// once.
pub struct MultiLeftJoinPlan<L, R, LK, LV, RK, RV, JK, FL, FR> {
    pub left: L,
    pub right: R,
    pub left_keys: FL,
    pub right_key: FR,
    pub types: PhantomData<(LK, LV, RK, RV, JK)>,
}

impl<
    L: MapQuery<Key = LK, Value = LV>,
    R: MapQuery<Key = RK, Value = RV>,
    LK: MapKey,
    LV: CellValue,
    RK: MapKey,
    RV: CellValue,
    JK: MapKey,
    FL: RowFn<LK, LV, Vec<JK>>,
    FR: RowFn<RK, RV, JK>,
> PlanProperties for MultiLeftJoinPlan<L, R, LK, LV, RK, RV, JK, FL, FR> {
    type Cardinality = ExactlyOne;

    type InputPartition = L::OutputPartition;

    type OutputPartition = ByMapKey<LK>;
}

impl<
    L: MapQuery<Key = LK, Value = LV>,
    R: MapQuery<Key = RK, Value = RV>,
    LK: MapKey,
    LV: CellValue,
    RK: MapKey,
    RV: CellValue,
    JK: MapKey,
    FL: RowFn<LK, LV, Vec<JK>>,
    FR: RowFn<RK, RV, JK>,
> MapQuery for MultiLeftJoinPlan<L, R, LK, LV, RK, RV, JK, FL, FR> {
    type Key = LK;

    type Value = (LV, Vec<RV>);

    open spec fn raw_source(&self) -> bool {
        false
    }

    fn is_raw_source(&self) -> (raw: bool)
        ensures
            !raw,
    {
        false
    }
}

impl<
    L,
    R,
    LK: MapKey,
    LV: CellValue,
    RK: MapKey,
    RV: CellValue,
    JK: MapKey,
    FL: RowFn<LK, LV, Vec<JK>>,
    FR: RowFn<RK, RV, JK>,
> MultiLeftJoinPlan<L, R, LK, LV, RK, RV, JK, FL, FR> {
    /// The two plans, and the join to put behind them.
    pub fn build_into(self) -> (built: (
        L,
        R,
        MultiJoinRuntime<
            LK,
            LV,
            RK,
            RV,
            JK,
            (LV, Vec<RV>),
            FL,
            RequiredRightKey<FR>,
            DirectProject<Collected>,
        >,
    ))
        requires
            pure2::<LK, LV, Vec<JK>, FL>(self.left_keys),
            pure2::<RK, RV, JK, FR>(self.right_key),
        ensures
            built.0 == self.left,
            built.1 == self.right,
            built.2.wf(),
            built.2.left_join_keys == self.left_keys,
            built.2.right_join_key == RequiredRightKey(self.right_key),
            built.2.project == DirectProject(Collected),
            built.2.join.left().rows == Map::<LK::Model, LV::Model>::empty(),
            built.2.right@ == empty_side::<RK::Model, RV::Model, JK::Model>(),
    {
        (
            self.left,
            self.right,
            install_keyed_multi_join_runtime_via_query(
                self.left_keys,
                RequiredRightKey(self.right_key),
                DirectProject(Collected),
            ),
        )
    }
}

/// Left joins of rows that have several join keys.
pub trait MultiLeftJoinExt<K: MapKey, V: CellValue>: MapQuery<Key = K, Value = V> {
    /// Joins each row with the right rows that match any of its join keys. A right row that matches
    /// several of them comes once.
    fn multi_left_join_by<
        R: MapQuery<Key = RK, Value = RV>,
        RK: MapKey,
        RV: CellValue,
        JK: MapKey,
        FL: Fn(&K, &V) -> Vec<JK> + Send + Sync + 'static,
        FR: Fn(&RK, &RV) -> JK + Send + Sync + 'static,
    >(self, right: R, left_keys: FL, right_key: FR) -> (plan: MultiLeftJoinPlan<
        Self,
        R,
        K,
        V,
        RK,
        RV,
        JK,
        FL,
        FR,
    >)
        ensures
            plan.left == self,
            plan.right == right,
            plan.left_keys == left_keys,
            plan.right_key == right_key,
            row_closure::<K, V, Vec<JK>, FL>(left_keys) ==> closure_known::<K, V, Vec<JK>, FL>(left_keys),
            row_closure::<RK, RV, JK, FR>(right_key) ==> closure_known::<RK, RV, JK, FR>(right_key),
    {
        proof {
            if row_closure::<K, V, Vec<JK>, FL>(left_keys) {
                closure_laws::<K, V, Vec<JK>, FL>(left_keys);
            }
            if row_closure::<RK, RV, JK, FR>(right_key) {
                closure_laws::<RK, RV, JK, FR>(right_key);
            }
        }
        MultiLeftJoinPlan { left: self, right, left_keys, right_key, types: PhantomData }
    }
}

impl<K: MapKey, V: CellValue, M: MapQuery<Key = K, Value = V>> MultiLeftJoinExt<K, V> for M {

}

} // verus!
