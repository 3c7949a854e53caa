//! Projections that give any number of rows for each row.
use std::marker::PhantomData;
use vstd::prelude::*;

use crate::diff::{replay, Change};
use crate::func::{closure_known, closure_laws, pure2, row_closure, RowFn};
use crate::index::entry_keys;
use crate::map_runtime::{
    event_keys, event_keys_cover, faithful_owners, install_map_runtime_via_query,
    owned_rows_never_clash, row_computation, source_rows, MapRuntime,
};
use crate::query::{Many, MapQuery, PlanProperties, Repartition};
use crate::row_fns::{scoped, ScopedRows};
use crate::value::{CellValue, MapKey};

verus! {

/// A projection of each row to any number of rows with keys of their own.
pub struct ProjectManyPlan<S, SK, SV, OK, OV, F> {
    pub source: S,
    pub f: F,
    pub types: PhantomData<(SK, SV, OK, OV)>,
}

impl<
    S: MapQuery<Key = SK, Value = SV>,
    SK: MapKey,
    SV: CellValue,
    OK: MapKey,
    OV: CellValue,
    F: RowFn<SK, SV, Vec<(OK, OV)>>,
> PlanProperties for ProjectManyPlan<S, SK, SV, OK, OV, F> {
    type Cardinality = Many;

    type InputPartition = S::OutputPartition;

    type OutputPartition = Repartition<OK>;
}

impl<
    S: MapQuery<Key = SK, Value = SV>,
    SK: MapKey,
    SV: CellValue,
    OK: MapKey,
    OV: CellValue,
    F: RowFn<SK, SV, Vec<(OK, OV)>>,
> MapQuery for ProjectManyPlan<S, SK, SV, OK, OV, F> {
    type Key = OK;

    type Value = OV;

    open spec fn raw_source(&self) -> bool {
        false
    }

    fn is_raw_source(&self) -> (raw: bool)
        ensures
            !raw,
    {
        false
    }
}

impl<
    S,
    SK: MapKey,
    SV: CellValue,
    OK: MapKey,
    OV: CellValue,
    F: RowFn<SK, SV, Vec<(OK, OV)>>,
> ProjectManyPlan<S, SK, SV, OK, OV, F> {
    /// The source, and the projection to put behind it.
    pub fn build_into(self) -> (built: (S, MapRuntime<SK, SV, OK, OV, F>))
        requires
            pure2::<SK, SV, Vec<(OK, OV)>, F>(self.f),
        ensures
            built.0 == self.source,
            built.1.wf(),
            built.1.faithful(),
            built.1.compute() == self.f,
            built.1.source() == Map::<SK::Model, SV::Model>::empty(),
            built.1.output().cache == Map::<OK::Model, OV::Model>::empty(),
    {
        (self.source, install_map_runtime_via_query(self.f))
    }
}

/// A projection of each row to any number of rows, whose keys are local to that row.
pub struct FlatMapEntriesPlan<S, SK, SV, LK, OV, F> {
    pub source: S,
    pub f: F,
    pub types: PhantomData<(SK, SV, LK, OV)>,
}

impl<
    S: MapQuery<Key = SK, Value = SV>,
    SK: MapKey,
    SV: CellValue,
    LK: MapKey,
    OV: CellValue,
    F: RowFn<SK, SV, Vec<(LK, OV)>>,
> PlanProperties for FlatMapEntriesPlan<S, SK, SV, LK, OV, F> {
    type Cardinality = Many;

    type InputPartition = S::OutputPartition;

    type OutputPartition = Repartition<(SK, LK)>;
}

impl<
    S: MapQuery<Key = SK, Value = SV>,
    SK: MapKey,
    SV: CellValue,
    LK: MapKey,
    OV: CellValue,
    F: RowFn<SK, SV, Vec<(LK, OV)>>,
> MapQuery for FlatMapEntriesPlan<S, SK, SV, LK, OV, F> {
    type Key = (SK, LK);

    type Value = OV;

    open spec fn raw_source(&self) -> bool {
        false
    }

    fn is_raw_source(&self) -> (raw: bool)
        ensures
            !raw,
    {
        false
    }
}

impl<
    S,
    SK: MapKey,
    SV: CellValue,
    LK: MapKey,
    OV: CellValue,
    F: RowFn<SK, SV, Vec<(LK, OV)>>,
> FlatMapEntriesPlan<S, SK, SV, LK, OV, F> {
    /// The source, and the projection to put behind it.
    pub fn build_into(self) -> (built: (S, MapRuntime<SK, SV, (SK, LK), OV, ScopedRows<F>>))
        requires
            pure2::<SK, SV, Vec<(LK, OV)>, F>(self.f),
        ensures
            built.0 == self.source,
            built.1.wf(),
            built.1.faithful(),
            built.1.compute() == ScopedRows(self.f),
            built.1.source() == Map::<SK::Model, SV::Model>::empty(),
            built.1.output().cache == Map::<(SK::Model, LK::Model), OV::Model>::empty(),
    {
        (self.source, install_map_runtime_via_query(ScopedRows(self.f)))
    }
}

/// Projections of each row to any number of rows.
pub trait ProjectManyExt<K: MapKey, V: CellValue>: MapQuery<Key = K, Value = V> {
    /// Gives each row any number of rows, with keys of their own.
    fn project_many<
        K2: MapKey,
        V2: CellValue,
        F: Fn(&K, &V) -> Vec<(K2, V2)> + Send + Sync + 'static,
    >(self, f: F) -> (plan: ProjectManyPlan<Self, K, V, K2, V2, F>)
        ensures
            plan.source == self,
            plan.f == f,
            row_closure::<K, V, Vec<(K2, V2)>, F>(f) ==> closure_known::<K, V, Vec<(K2, V2)>, F>(f),
    {
        proof {
            if row_closure::<K, V, Vec<(K2, V2)>, F>(f) {
                closure_laws::<K, V, Vec<(K2, V2)>, F>(f);
            }
        }
        ProjectManyPlan { source: self, f, types: PhantomData }
    }
}

impl<K: MapKey, V: CellValue, M: MapQuery<Key = K, Value = V>> ProjectManyExt<K, V> for M {

}

/// Projections of each row to any number of rows, whose keys are local to that row.
pub trait FlatMapEntriesExt<K: MapKey, V: CellValue>: MapQuery<Key = K, Value = V> {
    /// Gives each row any number of rows with local keys. The key of such a row is the key of its source
    /// row with the local key, so that no two source rows give the same key.
    fn flat_map_entries<
        LK: MapKey,
        V2: CellValue,
        F: Fn(&K, &V) -> Vec<(LK, V2)> + Send + Sync + 'static,
    >(self, f: F) -> (plan: FlatMapEntriesPlan<Self, K, V, LK, V2, F>)
        ensures
            plan.source == self,
            plan.f == f,
            row_closure::<K, V, Vec<(LK, V2)>, F>(f) ==> closure_known::<K, V, Vec<(LK, V2)>, F>(f),
    {
        proof {
            if row_closure::<K, V, Vec<(LK, V2)>, F>(f) {
                closure_laws::<K, V, Vec<(LK, V2)>, F>(f);
            }
        }
        FlatMapEntriesPlan { source: self, f, types: PhantomData }
    }
}

impl<K: MapKey, V: CellValue, M: MapQuery<Key = K, Value = V>> FlatMapEntriesExt<K, V> for M {

}

/// The source key of a row with a scoped key.
pub open spec fn scope_of<SK, LK>() -> spec_fn((SK, LK)) -> SK {
    |o: (SK, LK)| o.0
}

/// Rows with local keys never collide across source rows: where a function gives each local key once,
/// no change of the source brings a collision.
pub proof fn flat_map_never_clashes<
    SK: MapKey,
    SV: CellValue,
    LK: MapKey,
    OV: CellValue,
    F: RowFn<SK, SV, Vec<(LK, OV)>>,
>(
    runtime: MapRuntime<SK, SV, (SK, LK), OV, ScopedRows<F>>,
    steps: Seq<Change<SK::Model, SV::Model>>,
)
    requires
        runtime.faithful(),
        forall|k: SK::Model, v: SV::Model| #[trigger]
            entry_keys(runtime.compute().0.image(k, v)).no_duplicates(),
    ensures
        runtime.clash(steps) is None,
{
    let compute = row_computation::<SK, SV, (SK, LK), OV, ScopedRows<F>>(runtime.compute());
    let owner = scope_of::<SK::Model, LK::Model>();
    let before = runtime.rows();
    let after = source_rows(replay(runtime.source(), steps), compute);
    assert forall|k: SK::Model, v: SV::Model| entry_keys(#[trigger] compute(k, v)).no_duplicates()
        && forall|o: (SK::Model, LK::Model)| #[trigger]
        entry_keys(compute(k, v)).contains(o) ==> owner(o) == k by {
        let local = runtime.compute().0.image(k, v);
        let names = entry_keys(compute(k, v));
        assert(compute(k, v) == scoped(k, local));
        assert forall|i: int| 0 <= i < names.len() implies #[trigger] names[i] == (
            k,
            entry_keys(local)[i],
        ) by {
            assert(names[i] == scoped(k, local)[i].0);
        }
        assert(entry_keys(local).no_duplicates());
    }
    assert forall|k: SK::Model, o: (SK::Model, LK::Model)| #[trigger]
        entry_keys(before(k)).contains(o) implies owner(o) == k by {
        if runtime.source().contains_key(k) {
            assert(before(k) == compute(k, runtime.source()[k]));
        } else {
            assert(before(k) =~= Seq::empty());
        }
    }
    assert forall|k: SK::Model, o: (SK::Model, LK::Model)| #[trigger]
        entry_keys(after(k)).contains(o) implies owner(o) == k by {
        let source = replay(runtime.source(), steps);
        if source.contains_key(k) {
            assert(after(k) == compute(k, source[k]));
        } else {
            assert(after(k) =~= Seq::empty());
        }
    }
    assert forall|k: SK::Model| #[trigger] entry_keys(after(k)).no_duplicates() by {
        let source = replay(runtime.source(), steps);
        if source.contains_key(k) {
            assert(after(k) == compute(k, source[k]));
        } else {
            assert(after(k) =~= Seq::empty());
        }
    }
    event_keys_cover(runtime.order(), runtime.source(), steps);
    faithful_owners(runtime.output(), before, owner);
    owned_rows_never_clash(
        event_keys(runtime.order(), steps, Seq::empty()),
        after,
        owner,
        runtime.output().owners,
    );
}

} // verus!
