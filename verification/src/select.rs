//! Filters of rows by their value.
use std::marker::PhantomData;
use vstd::prelude::*;

use crate::diff::{entries_map, replay, Change};
use crate::fx::lookup;
use crate::index::entry_keys;
use crate::map_runtime::{
    event_keys, event_keys_cover, faithful_owners, install_map_runtime_via_query,
    owned_rows_never_clash, row_computation, source_rows, MapRuntime,
};
use crate::query::{MapQuery, PlanProperties, ZeroOrOne};
use crate::row_fns::{image1, pure1, AcceptedRow};
use crate::value::{CellValue, MapKey};

verus! {

/// The rows whose value a predicate accepts.
pub struct SelectPlan<S, K, V, F> {
    pub source: S,
    pub predicate: F,
    pub types: PhantomData<(K, V)>,
}

impl<
    S: MapQuery<Key = K, Value = V>,
    K: MapKey,
    V: CellValue,
    F: Fn(&V) -> bool + Send + Sync + 'static,
> PlanProperties for SelectPlan<S, K, V, F> {
    type Cardinality = ZeroOrOne;

    type InputPartition = S::OutputPartition;

    type OutputPartition = S::OutputPartition;
}

impl<
    S: MapQuery<Key = K, Value = V>,
    K: MapKey,
    V: CellValue,
    F: Fn(&V) -> bool + Send + Sync + 'static,
> MapQuery for SelectPlan<S, K, V, F> {
    type Key = K;

    type Value = V;

    open spec fn raw_source(&self) -> bool {
        false
    }

    fn is_raw_source(&self) -> (raw: bool)
        ensures
            !raw,
    {
        false
    }
}

impl<S, K: MapKey, V: CellValue, F: Fn(&V) -> bool + Send + Sync + 'static> SelectPlan<S, K, V, F> {
    /// The source, and the filter to put behind it.
    pub fn build_into(self) -> (built: (S, MapRuntime<K, V, K, V, AcceptedRow<F>>))
        requires
            pure1::<V, bool, F>(self.predicate),
        ensures
            built.0 == self.source,
            built.1.wf(),
            built.1.faithful(),
            built.1.compute() == AcceptedRow(self.predicate),
            built.1.source() == Map::<K::Model, V::Model>::empty(),
            built.1.output().cache == Map::<K::Model, V::Model>::empty(),
    {
        (self.source, install_map_runtime_via_query(AcceptedRow(self.predicate)))
    }
}

/// Filters of rows by their value.
pub trait SelectExt<K: MapKey, V: CellValue>: MapQuery<Key = K, Value = V> {
    /// Keeps the rows whose value a predicate accepts.
    fn select<
        F: Fn(&V) -> bool + Send + Sync + 'static,
    >(self, predicate: F) -> (plan: SelectPlan<Self, K, V, F>)
        ensures
            plan.source == self,
            plan.predicate == predicate,
    {
        SelectPlan { source: self, predicate, types: PhantomData }
    }
}

impl<K: MapKey, V: CellValue, M: MapQuery<Key = K, Value = V>> SelectExt<K, V> for M {

}

/// The source key of a row that a filter keeps.
pub open spec fn same_key<K>() -> spec_fn(K) -> K {
    |k: K| k
}

/// A filter never brings a collision.
pub proof fn select_never_clashes<K: MapKey, V: CellValue, F: Fn(&V) -> bool + Send + Sync + 'static>(
    runtime: MapRuntime<K, V, K, V, AcceptedRow<F>>,
    steps: Seq<Change<K::Model, V::Model>>,
)
    requires
        runtime.faithful(),
    ensures
        runtime.clash(steps) is None,
{
    let compute = row_computation::<K, V, K, V, AcceptedRow<F>>(runtime.compute());
    let owner = same_key::<K::Model>();
    let before = runtime.rows();
    let source = replay(runtime.source(), steps);
    let after = source_rows(source, compute);
    assert forall|k: K::Model, v: V::Model| #[trigger] compute(k, v) == accepted(runtime.compute().0, k, v) by {}
    assert forall|k: K::Model, o: K::Model| #[trigger]
        entry_keys(before(k)).contains(o) implies owner(o) == k by {
        if runtime.source().contains_key(k) {
            accepted_keys(runtime.compute().0, k, runtime.source()[k]);
            assert(before(k) == compute(k, runtime.source()[k]));
        } else {
            assert(before(k) =~= Seq::empty());
        }
    }
    assert forall|k: K::Model| #[trigger] entry_keys(after(k)).no_duplicates() && forall|o: K::Model| #[trigger]
        entry_keys(after(k)).contains(o) ==> owner(o) == k by {
        if source.contains_key(k) {
            accepted_keys(runtime.compute().0, k, source[k]);
            assert(after(k) == compute(k, source[k]));
        } else {
            assert(after(k) =~= Seq::empty());
        }
    }
    event_keys_cover(runtime.order(), runtime.source(), steps);
    faithful_owners(runtime.output(), before, owner);
    owned_rows_never_clash(
        event_keys(runtime.order(), steps, Seq::empty()),
        after,
        owner,
        runtime.output().owners,
    );
}

/// The rows that a filter keeps of one row.
pub open spec fn accepted<
    K,
    V: CellValue,
    F: Fn(&V) -> bool,
>(f: F, k: K, v: V::Model) -> Seq<(K, V::Model)> {
    if image1::<V, bool, F>(f, v) {
        seq![(k, v)]
    } else {
        Seq::empty()
    }
}

proof fn accepted_keys<K, V: CellValue, F: Fn(&V) -> bool>(f: F, k: K, v: V::Model)
    ensures
        entry_keys(accepted::<K, V, F>(f, k, v)).no_duplicates(),
        forall|o: K| #[trigger] entry_keys(accepted::<K, V, F>(f, k, v)).contains(o) ==> o == k,
{
    let names = entry_keys(accepted::<K, V, F>(f, k, v));
    assert forall|o: K| #[trigger] names.contains(o) implies o == k by {
        let i = choose|i: int| 0 <= i < names.len() && names[i] == o;
        assert(names[i] == k);
    }
}

/// What the rows of a filter are: the rows of the source whose value the predicate accepts.
pub proof fn select_rows<K: MapKey, V: CellValue, F: Fn(&V) -> bool + Send + Sync + 'static>(
    runtime: MapRuntime<K, V, K, V, AcceptedRow<F>>,
    k: K::Model,
)
    requires
        runtime.faithful(),
    ensures
        lookup(runtime.output().cache, k) == (match lookup(runtime.source(), k) {
            Some(v) => if image1::<V, bool, F>(runtime.compute().0, v) {
                Some(v)
            } else {
                None
            },
            None => None,
        }),
{
    let f = runtime.compute().0;
    let rows = runtime.rows();
    let compute = row_computation::<K, V, K, V, AcceptedRow<F>>(runtime.compute());
    let owners = runtime.output().owners;
    assert forall|x: K::Model, v: V::Model| #[trigger] compute(x, v) == accepted(f, x, v) by {}
    assert(lookup(runtime.output().cache, k) == (match lookup(owners, k) {
        Some(x) => lookup(entries_map(rows(x)), k),
        None => None,
    }));
    if let Some(x) = lookup(owners, k) {
        assert(entry_keys(rows(x)).contains(k));
        if runtime.source().contains_key(x) {
            accepted_keys(f, x, runtime.source()[x]);
            assert(rows(x) == accepted(f, x, runtime.source()[x]));
        } else {
            assert(rows(x) =~= Seq::empty());
        }
        assert(x == k);
    }
    if runtime.source().contains_key(k) {
        let v = runtime.source()[k];
        let one = accepted(f, k, v);
        assert(rows(k) == one);
        if image1::<V, bool, F>(f, v) {
            assert(entry_keys(one)[0] == k);
            assert(entry_keys(rows(k)).contains(k));
            assert(lookup(owners, k) == Some(k));
            assert(one.drop_last() =~= Seq::empty());
            assert(entries_map(one) == entries_map(one.drop_last()).insert(k, v));
        } else {
            assert(one =~= Seq::empty());
        }
    } else {
        assert(rows(k) =~= Seq::empty());
    }
}

} // verus!
