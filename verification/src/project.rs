//! Projections that give each row another key.
use std::marker::PhantomData;
use vstd::prelude::*;

use crate::func::{closure_known, closure_laws, pure2, row_closure, RowFn};
use crate::map_runtime::{install_map_runtime_via_query, MapRuntime};
use crate::query::{ExactlyOne, MapQuery, PlanProperties, Repartition, ZeroOrOne};
use crate::row_fns::{MaybeRow, OneRow};
use crate::value::{CellValue, MapKey};

verus! {

/// A projection of each row to at most one row with a key of its own.
pub struct ProjectPlan<S, SK, SV, OK, OV, F> {
    pub source: S,
    pub f: F,
    pub types: PhantomData<(SK, SV, OK, OV)>,
}

impl<
    S: MapQuery<Key = SK, Value = SV>,
    SK: MapKey,
    SV: CellValue,
    OK: MapKey,
    OV: CellValue,
    F: RowFn<SK, SV, Option<(OK, OV)>>,
> PlanProperties for ProjectPlan<S, SK, SV, OK, OV, F> {
    type Cardinality = ZeroOrOne;

    type InputPartition = S::OutputPartition;

    type OutputPartition = Repartition<OK>;
}

impl<
    S: MapQuery<Key = SK, Value = SV>,
    SK: MapKey,
    SV: CellValue,
    OK: MapKey,
    OV: CellValue,
    F: RowFn<SK, SV, Option<(OK, OV)>>,
> MapQuery for ProjectPlan<S, SK, SV, OK, OV, F> {
    type Key = OK;

    type Value = OV;

    open spec fn raw_source(&self) -> bool {
        false
    }

    fn is_raw_source(&self) -> (raw: bool)
        ensures
            !raw,
    {
        false
    }
}

impl<
    S,
    SK: MapKey,
    SV: CellValue,
    OK: MapKey,
    OV: CellValue,
    F: RowFn<SK, SV, Option<(OK, OV)>>,
> ProjectPlan<S, SK, SV, OK, OV, F> {
    /// The source, and the projection to put behind it.
    pub fn build_into(self) -> (built: (S, MapRuntime<SK, SV, OK, OV, MaybeRow<F>>))
        requires
            pure2::<SK, SV, Option<(OK, OV)>, F>(self.f),
        ensures
            built.0 == self.source,
            built.1.wf(),
            built.1.faithful(),
            built.1.compute() == MaybeRow(self.f),
            built.1.source() == Map::<SK::Model, SV::Model>::empty(),
            built.1.output().cache == Map::<OK::Model, OV::Model>::empty(),
    {
        (self.source, install_map_runtime_via_query(MaybeRow(self.f)))
    }
}

/// A projection of each row to one row with a key of its own.
pub struct MapEntriesPlan<S, SK, SV, OK, OV, F> {
    pub source: S,
    pub f: F,
    pub types: PhantomData<(SK, SV, OK, OV)>,
}

impl<
    S: MapQuery<Key = SK, Value = SV>,
    SK: MapKey,
    SV: CellValue,
    OK: MapKey,
    OV: CellValue,
    F: RowFn<SK, SV, (OK, OV)>,
> PlanProperties for MapEntriesPlan<S, SK, SV, OK, OV, F> {
    type Cardinality = ExactlyOne;

    type InputPartition = S::OutputPartition;

    type OutputPartition = Repartition<OK>;
}

impl<
    S: MapQuery<Key = SK, Value = SV>,
    SK: MapKey,
    SV: CellValue,
    OK: MapKey,
    OV: CellValue,
    F: RowFn<SK, SV, (OK, OV)>,
> MapQuery for MapEntriesPlan<S, SK, SV, OK, OV, F> {
    type Key = OK;

    type Value = OV;

    open spec fn raw_source(&self) -> bool {
        false
    }

    fn is_raw_source(&self) -> (raw: bool)
        ensures
            !raw,
    {
        false
    }
}

impl<
    S,
    SK: MapKey,
    SV: CellValue,
    OK: MapKey,
    OV: CellValue,
    F: RowFn<SK, SV, (OK, OV)>,
> MapEntriesPlan<S, SK, SV, OK, OV, F> {
    /// The source, and the projection to put behind it.
    pub fn build_into(self) -> (built: (S, MapRuntime<SK, SV, OK, OV, OneRow<F>>))
        requires
            pure2::<SK, SV, (OK, OV), F>(self.f),
        ensures
            built.0 == self.source,
            built.1.wf(),
            built.1.faithful(),
            built.1.compute() == OneRow(self.f),
            built.1.source() == Map::<SK::Model, SV::Model>::empty(),
            built.1.output().cache == Map::<OK::Model, OV::Model>::empty(),
    {
        (self.source, install_map_runtime_via_query(OneRow(self.f)))
    }
}

/// Projections that give each row another key. No two rows of the source may give the same key: such
/// a collision is found before the output changes, and no row takes the place of another.
pub trait MapEntriesExt<K: MapKey, V: CellValue>: MapQuery<Key = K, Value = V> {
    /// Gives each row one row with a key of its own.
    fn map_entries<
        K2: MapKey,
        V2: CellValue,
        F: Fn(&K, &V) -> (K2, V2) + Send + Sync + 'static,
    >(self, f: F) -> (plan: MapEntriesPlan<Self, K, V, K2, V2, F>)
        ensures
            plan.source == self,
            plan.f == f,
            row_closure::<K, V, (K2, V2), F>(f) ==> closure_known::<K, V, (K2, V2), F>(f),
    {
        proof {
            if row_closure::<K, V, (K2, V2), F>(f) {
                closure_laws::<K, V, (K2, V2), F>(f);
            }
        }
        MapEntriesPlan { source: self, f, types: PhantomData }
    }

    /// Gives each row at most one row with a key of its own.
    fn filter_map_entries<
        K2: MapKey,
        V2: CellValue,
        F: Fn(&K, &V) -> Option<(K2, V2)> + Send + Sync + 'static,
    >(self, f: F) -> (plan: ProjectPlan<Self, K, V, K2, V2, F>)
        ensures
            plan.source == self,
            plan.f == f,
            row_closure::<K, V, Option<(K2, V2)>, F>(f) ==> closure_known::<K, V, Option<(K2, V2)>, F>(f),
    {
        proof {
            if row_closure::<K, V, Option<(K2, V2)>, F>(f) {
                closure_laws::<K, V, Option<(K2, V2)>, F>(f);
            }
        }
        ProjectPlan { source: self, f, types: PhantomData }
    }
}

impl<K: MapKey, V: CellValue, M: MapQuery<Key = K, Value = V>> MapEntriesExt<K, V> for M {

}

} // verus!
