//! Projections of values that keep the key of each row.
use std::marker::PhantomData;
use vstd::prelude::*;

use crate::delta::piped;
use crate::func::{closure_known, closure_laws, image2, pure2, row_closure, RowFn};
use crate::query::{ExactlyOne, MapQuery, PlanProperties, ZeroOrOne};
use crate::row_fns::{
    image1, pure1, Composed, Kept, OnValue, OptionChained, OptionComposed, OptionKept,
};
use crate::stateless_runtime::{
    filtering, install_filter_map_values_runtime, install_map_values_runtime, mapping,
    FilterMapValuesRuntime, MapValuesRuntime,
};
use crate::value::{CellValue, MapKey};

verus! {

/// A projection that gives one row for each row, with the same key.
pub struct MapValuesPlan<S, K, V, U, F> {
    pub source: S,
    pub f: F,
    pub types: PhantomData<(K, V, U)>,
}

impl<
    S: MapQuery<Key = K, Value = V>,
    K: MapKey,
    V: CellValue,
    U: CellValue,
    F: RowFn<K, V, U>,
> PlanProperties for MapValuesPlan<S, K, V, U, F> {
    type Cardinality = ExactlyOne;

    type InputPartition = S::OutputPartition;

    type OutputPartition = S::OutputPartition;
}

impl<
    S: MapQuery<Key = K, Value = V>,
    K: MapKey,
    V: CellValue,
    U: CellValue,
    F: RowFn<K, V, U>,
> MapQuery for MapValuesPlan<S, K, V, U, F> {
    type Key = K;

    type Value = U;

    open spec fn raw_source(&self) -> bool {
        false
    }

    fn is_raw_source(&self) -> (raw: bool)
        ensures
            !raw,
    {
        false
    }
}

/// A projection that gives at most one row for each row, with the same key.
pub struct FilterMapValuesPlan<S, K, V, U, F> {
    pub source: S,
    pub f: F,
    pub types: PhantomData<(K, V, U)>,
}

impl<
    S: MapQuery<Key = K, Value = V>,
    K: MapKey,
    V: CellValue,
    U: CellValue,
    F: RowFn<K, V, Option<U>>,
> PlanProperties for FilterMapValuesPlan<S, K, V, U, F> {
    type Cardinality = ZeroOrOne;

    type InputPartition = S::OutputPartition;

    type OutputPartition = S::OutputPartition;
}

impl<
    S: MapQuery<Key = K, Value = V>,
    K: MapKey,
    V: CellValue,
    U: CellValue,
    F: RowFn<K, V, Option<U>>,
> MapQuery for FilterMapValuesPlan<S, K, V, U, F> {
    type Key = K;

    type Value = U;

    open spec fn raw_source(&self) -> bool {
        false
    }

    fn is_raw_source(&self) -> (raw: bool)
        ensures
            !raw,
    {
        false
    }
}

impl<S, K: MapKey, V: CellValue, U: CellValue, F: RowFn<K, V, U>> MapValuesPlan<S, K, V, U, F> {
    /// Puts another projection behind this one, in one plan.
    pub fn map_values<
        W: CellValue,
        G: Fn(&K, &U) -> W + Send + Sync + 'static,
    >(self, g: G) -> (plan: MapValuesPlan<S, K, V, W, Composed<F, G, U>>)
        ensures
            plan.source == self.source,
            plan.f == (Composed { first: self.f, second: g, types: PhantomData::<U> }),
            row_closure::<K, U, W, G>(g) ==> closure_known::<K, U, W, G>(g),
            pure2::<K, V, U, F>(self.f) && row_closure::<K, U, W, G>(g) ==> pure2::<
                K,
                V,
                W,
                Composed<F, G, U>,
            >(plan.f),
            forall|k: K::Model, v: V::Model| #[trigger]
                image2::<K, V, W, Composed<F, G, U>>(plan.f, k, v) == image2::<K, U, W, G>(
                    g,
                    k,
                    image2::<K, V, U, F>(self.f, k, v),
                ),
    {
        proof {
            if row_closure::<K, U, W, G>(g) {
                closure_laws::<K, U, W, G>(g);
            }
        }
        MapValuesPlan {
            source: self.source,
            f: Composed { first: self.f, second: g, types: PhantomData::<U> },
            types: PhantomData,
        }
    }

    /// Puts a projection that may drop rows behind this one, in one plan.
    pub fn filter_map_values<
        W: CellValue,
        G: Fn(&K, &U) -> Option<W> + Send + Sync + 'static,
    >(self, g: G) -> (plan: FilterMapValuesPlan<S, K, V, W, Composed<F, G, U>>)
        ensures
            plan.source == self.source,
            plan.f == (Composed { first: self.f, second: g, types: PhantomData::<U> }),
            row_closure::<K, U, Option<W>, G>(g) ==> closure_known::<K, U, Option<W>, G>(g),
            pure2::<K, V, U, F>(self.f) && row_closure::<K, U, Option<W>, G>(g) ==> pure2::<
                K,
                V,
                Option<W>,
                Composed<F, G, U>,
            >(plan.f),
            forall|k: K::Model, v: V::Model| #[trigger]
                image2::<K, V, Option<W>, Composed<F, G, U>>(plan.f, k, v) == image2::<
                    K,
                    U,
                    Option<W>,
                    G,
                >(g, k, image2::<K, V, U, F>(self.f, k, v)),
    {
        proof {
            if row_closure::<K, U, Option<W>, G>(g) {
                closure_laws::<K, U, Option<W>, G>(g);
            }
        }
        FilterMapValuesPlan {
            source: self.source,
            f: Composed { first: self.f, second: g, types: PhantomData::<U> },
            types: PhantomData,
        }
    }

    /// Keeps the rows whose projected value a predicate accepts.
    pub fn select<
        G: Fn(&U) -> bool + Send + Sync + 'static,
    >(self, predicate: G) -> (plan: FilterMapValuesPlan<S, K, V, U, Kept<F, OnValue<G>>>)
        ensures
            plan.source == self.source,
            plan.f == (Kept { first: self.f, predicate: OnValue(predicate) }),
            pure2::<K, V, U, F>(self.f) && pure1::<U, bool, G>(predicate) ==> pure2::<
                K,
                V,
                Option<U>,
                Kept<F, OnValue<G>>,
            >(plan.f),
            forall|k: K::Model, v: V::Model| #[trigger]
                image2::<K, V, Option<U>, Kept<F, OnValue<G>>>(plan.f, k, v) == ({
                    let u = image2::<K, V, U, F>(self.f, k, v);
                    if image1::<U, bool, G>(predicate, u) {
                        Some(u)
                    } else {
                        None
                    }
                }),
    {
        FilterMapValuesPlan {
            source: self.source,
            f: Kept { first: self.f, predicate: OnValue(predicate) },
            types: PhantomData,
        }
    }

    /// Keeps the rows whose key and projected value a predicate accepts.
    pub fn select_by<
        G: Fn(&K, &U) -> bool + Send + Sync + 'static,
    >(self, predicate: G) -> (plan: FilterMapValuesPlan<S, K, V, U, Kept<F, G>>)
        ensures
            plan.source == self.source,
            plan.f == (Kept { first: self.f, predicate }),
            row_closure::<K, U, bool, G>(predicate) ==> closure_known::<K, U, bool, G>(predicate),
            pure2::<K, V, U, F>(self.f) && row_closure::<K, U, bool, G>(predicate) ==> pure2::<
                K,
                V,
                Option<U>,
                Kept<F, G>,
            >(plan.f),
            forall|k: K::Model, v: V::Model| #[trigger]
                image2::<K, V, Option<U>, Kept<F, G>>(plan.f, k, v) == ({
                    let u = image2::<K, V, U, F>(self.f, k, v);
                    if image2::<K, U, bool, G>(predicate, k, u) {
                        Some(u)
                    } else {
                        None
                    }
                }),
    {
        proof {
            if row_closure::<K, U, bool, G>(predicate) {
                closure_laws::<K, U, bool, G>(predicate);
            }
        }
        FilterMapValuesPlan {
            source: self.source,
            f: Kept { first: self.f, predicate },
            types: PhantomData,
        }
    }

    /// The source, and the projection to put behind it.
    pub fn build_into(self) -> (built: (S, MapValuesRuntime<F>))
        requires
            pure2::<K, V, U, F>(self.f),
        ensures
            built.0 == self.source,
            built.1.f == self.f,
    {
        (self.source, install_map_values_runtime::<K, V, U, F>(self.f))
    }
}

impl<
    S,
    K: MapKey,
    V: CellValue,
    U: CellValue,
    F: RowFn<K, V, Option<U>>,
> FilterMapValuesPlan<S, K, V, U, F> {
    /// Puts another projection behind this one, in one plan.
    pub fn map_values<
        W: CellValue,
        G: Fn(&K, &U) -> W + Send + Sync + 'static,
    >(self, g: G) -> (plan: FilterMapValuesPlan<S, K, V, W, OptionComposed<F, G, U>>)
        ensures
            plan.source == self.source,
            plan.f == (OptionComposed { first: self.f, second: g, types: PhantomData::<U> }),
            row_closure::<K, U, W, G>(g) ==> closure_known::<K, U, W, G>(g),
            pure2::<K, V, Option<U>, F>(self.f) && row_closure::<K, U, W, G>(g) ==> pure2::<
                K,
                V,
                Option<W>,
                OptionComposed<F, G, U>,
            >(plan.f),
            forall|k: K::Model, v: V::Model| #[trigger]
                image2::<K, V, Option<W>, OptionComposed<F, G, U>>(plan.f, k, v) == (match image2::<
                    K,
                    V,
                    Option<U>,
                    F,
                >(self.f, k, v) {
                    Some(u) => Some(image2::<K, U, W, G>(g, k, u)),
                    None => None,
                }),
    {
        proof {
            if row_closure::<K, U, W, G>(g) {
                closure_laws::<K, U, W, G>(g);
            }
        }
        FilterMapValuesPlan {
            source: self.source,
            f: OptionComposed { first: self.f, second: g, types: PhantomData::<U> },
            types: PhantomData,
        }
    }

    /// Puts a projection that may drop rows behind this one, in one plan.
    pub fn filter_map_values<
        W: CellValue,
        G: Fn(&K, &U) -> Option<W> + Send + Sync + 'static,
    >(self, g: G) -> (plan: FilterMapValuesPlan<S, K, V, W, OptionChained<F, G, U>>)
        ensures
            plan.source == self.source,
            plan.f == (OptionChained { first: self.f, second: g, types: PhantomData::<U> }),
            row_closure::<K, U, Option<W>, G>(g) ==> closure_known::<K, U, Option<W>, G>(g),
            pure2::<K, V, Option<U>, F>(self.f) && row_closure::<K, U, Option<W>, G>(g) ==> pure2::<
                K,
                V,
                Option<W>,
                OptionChained<F, G, U>,
            >(plan.f),
            forall|k: K::Model, v: V::Model| #[trigger]
                image2::<K, V, Option<W>, OptionChained<F, G, U>>(plan.f, k, v) == (match image2::<
                    K,
                    V,
                    Option<U>,
                    F,
                >(self.f, k, v) {
                    Some(u) => image2::<K, U, Option<W>, G>(g, k, u),
                    None => None,
                }),
    {
        proof {
            if row_closure::<K, U, Option<W>, G>(g) {
                closure_laws::<K, U, Option<W>, G>(g);
            }
        }
        FilterMapValuesPlan {
            source: self.source,
            f: OptionChained { first: self.f, second: g, types: PhantomData::<U> },
            types: PhantomData,
        }
    }

    /// Keeps the rows whose projected value a predicate accepts.
    pub fn select<
        G: Fn(&U) -> bool + Send + Sync + 'static,
    >(self, predicate: G) -> (plan: FilterMapValuesPlan<S, K, V, U, OptionKept<F, OnValue<G>>>)
        ensures
            plan.source == self.source,
            plan.f == (OptionKept { first: self.f, predicate: OnValue(predicate) }),
            pure2::<K, V, Option<U>, F>(self.f) && pure1::<U, bool, G>(predicate) ==> pure2::<
                K,
                V,
                Option<U>,
                OptionKept<F, OnValue<G>>,
            >(plan.f),
            forall|k: K::Model, v: V::Model| #[trigger]
                image2::<K, V, Option<U>, OptionKept<F, OnValue<G>>>(plan.f, k, v) == (match image2::<
                    K,
                    V,
                    Option<U>,
                    F,
                >(self.f, k, v) {
                    Some(u) => if image1::<U, bool, G>(predicate, u) {
                        Some(u)
                    } else {
                        None
                    },
                    None => None,
                }),
    {
        FilterMapValuesPlan {
            source: self.source,
            f: OptionKept { first: self.f, predicate: OnValue(predicate) },
            types: PhantomData,
        }
    }

    /// Keeps the rows whose key and projected value a predicate accepts.
    pub fn select_by<
        G: Fn(&K, &U) -> bool + Send + Sync + 'static,
    >(self, predicate: G) -> (plan: FilterMapValuesPlan<S, K, V, U, OptionKept<F, G>>)
        ensures
            plan.source == self.source,
            plan.f == (OptionKept { first: self.f, predicate }),
            row_closure::<K, U, bool, G>(predicate) ==> closure_known::<K, U, bool, G>(predicate),
            pure2::<K, V, Option<U>, F>(self.f) && row_closure::<K, U, bool, G>(predicate) ==> pure2::<
                K,
                V,
                Option<U>,
                OptionKept<F, G>,
            >(plan.f),
            forall|k: K::Model, v: V::Model| #[trigger]
                image2::<K, V, Option<U>, OptionKept<F, G>>(plan.f, k, v) == (match image2::<
                    K,
                    V,
                    Option<U>,
                    F,
                >(self.f, k, v) {
                    Some(u) => if image2::<K, U, bool, G>(predicate, k, u) {
                        Some(u)
                    } else {
                        None
                    },
                    None => None,
                }),
    {
        proof {
            if row_closure::<K, U, bool, G>(predicate) {
                closure_laws::<K, U, bool, G>(predicate);
            }
        }
        FilterMapValuesPlan {
            source: self.source,
            f: OptionKept { first: self.f, predicate },
            types: PhantomData,
        }
    }

    /// The source, and the projection to put behind it.
    pub fn build_into(self) -> (built: (S, FilterMapValuesRuntime<F>))
        requires
            pure2::<K, V, Option<U>, F>(self.f),
        ensures
            built.0 == self.source,
            built.1.f == self.f,
    {
        (self.source, install_filter_map_values_runtime::<K, V, U, F>(self.f))
    }
}

/// Projections that keep the key of each row.
pub trait MapValuesExt<K: MapKey, V: CellValue>: MapQuery<Key = K, Value = V> {
    /// Maps every value, and keeps its key.
    fn map_values<U: CellValue, F: Fn(&K, &V) -> U + Send + Sync + 'static>(self, f: F) -> (plan:
        MapValuesPlan<Self, K, V, U, F>)
        ensures
            plan.source == self,
            plan.f == f,
            row_closure::<K, V, U, F>(f) ==> closure_known::<K, V, U, F>(f),
    {
        proof {
            if row_closure::<K, V, U, F>(f) {
                closure_laws::<K, V, U, F>(f);
            }
        }
        MapValuesPlan { source: self, f, types: PhantomData }
    }

    /// Maps or drops every value, and keeps its key.
    fn filter_map_values<U: CellValue, F: Fn(&K, &V) -> Option<U> + Send + Sync + 'static>(
        self,
        f: F,
    ) -> (plan: FilterMapValuesPlan<Self, K, V, U, F>)
        ensures
            plan.source == self,
            plan.f == f,
            row_closure::<K, V, Option<U>, F>(f) ==> closure_known::<K, V, Option<U>, F>(f),
    {
        proof {
            if row_closure::<K, V, Option<U>, F>(f) {
                closure_laws::<K, V, Option<U>, F>(f);
            }
        }
        FilterMapValuesPlan { source: self, f, types: PhantomData }
    }
}

impl<K: MapKey, V: CellValue, M: MapQuery<Key = K, Value = V>> MapValuesExt<K, V> for M {

}

/// A row function after another.
pub open spec fn chained<K, V, U, W>(
    f: spec_fn(K, V) -> Option<U>,
    g: spec_fn(K, U) -> Option<W>,
) -> spec_fn(K, V) -> Option<W> {
    |k: K, v: V|
        match f(k, v) {
            Some(u) => g(k, u),
            None => None,
        }
}

/// The rows that a predicate accepts.
pub open spec fn accepting<K: CellValue, U: CellValue, P: RowFn<K, U, bool>>(
    predicate: P,
) -> spec_fn(K::Model, U::Model) -> Option<U::Model> {
    |k: K::Model, u: U::Model|
        if predicate.image(k, u) {
            Some(u)
        } else {
            None
        }
}

/// One projection behind another gives what the two in one give.
pub proof fn chained_projections<K, V, U, W>(
    rows: Map<K, V>,
    f: spec_fn(K, V) -> Option<U>,
    g: spec_fn(K, U) -> Option<W>,
)
    ensures
        piped(piped(rows, f), g) == piped(rows, chained(f, g)),
{
    assert(piped(piped(rows, f), g) =~= piped(rows, chained(f, g)));
}

/// A plan that puts a second projection into the first gives what the two plans in a row give.
pub proof fn fused_projections<
    K: CellValue,
    V: CellValue,
    U: CellValue,
    W: CellValue,
    F: RowFn<K, V, U>,
    G: RowFn<K, U, W>,
    H: RowFn<K, U, Option<W>>,
    P: RowFn<K, U, bool>,
>(rows: Map<K::Model, V::Model>, f: F, g: G, h: H, p: P)
    ensures
        piped(
            rows,
            mapping::<K, V, W, Composed<F, G, U>>(
                Composed { first: f, second: g, types: PhantomData },
            ),
        ) == piped(piped(rows, mapping::<K, V, U, F>(f)), mapping::<K, U, W, G>(g)),
        piped(
            rows,
            filtering::<K, V, W, Composed<F, H, U>>(
                Composed { first: f, second: h, types: PhantomData },
            ),
        ) == piped(piped(rows, mapping::<K, V, U, F>(f)), filtering::<K, U, W, H>(h)),
        piped(rows, filtering::<K, V, U, Kept<F, P>>(Kept { first: f, predicate: p })) == piped(
            piped(rows, mapping::<K, V, U, F>(f)),
            accepting::<K, U, P>(p),
        ),
{
    assert(piped(
        rows,
        mapping::<K, V, W, Composed<F, G, U>>(
            Composed { first: f, second: g, types: PhantomData },
        ),
    ) =~= piped(piped(rows, mapping::<K, V, U, F>(f)), mapping::<K, U, W, G>(g)));
    assert(piped(
        rows,
        filtering::<K, V, W, Composed<F, H, U>>(
            Composed { first: f, second: h, types: PhantomData },
        ),
    ) =~= piped(piped(rows, mapping::<K, V, U, F>(f)), filtering::<K, U, W, H>(h)));
    assert(piped(rows, filtering::<K, V, U, Kept<F, P>>(Kept { first: f, predicate: p })) =~= piped(
        piped(rows, mapping::<K, V, U, F>(f)),
        accepting::<K, U, P>(p),
    ));
}

/// A plan that puts a second projection into a first one that may drop rows gives what the two plans
/// in a row give.
pub proof fn fused_filters<
    K: CellValue,
    V: CellValue,
    U: CellValue,
    W: CellValue,
    F: RowFn<K, V, Option<U>>,
    G: RowFn<K, U, W>,
    H: RowFn<K, U, Option<W>>,
    P: RowFn<K, U, bool>,
>(rows: Map<K::Model, V::Model>, f: F, g: G, h: H, p: P)
    ensures
        piped(
            rows,
            filtering::<K, V, W, OptionComposed<F, G, U>>(
                OptionComposed { first: f, second: g, types: PhantomData },
            ),
        ) == piped(piped(rows, filtering::<K, V, U, F>(f)), mapping::<K, U, W, G>(g)),
        piped(
            rows,
            filtering::<K, V, W, OptionChained<F, H, U>>(
                OptionChained { first: f, second: h, types: PhantomData },
            ),
        ) == piped(piped(rows, filtering::<K, V, U, F>(f)), filtering::<K, U, W, H>(h)),
        piped(
            rows,
            filtering::<K, V, U, OptionKept<F, P>>(OptionKept { first: f, predicate: p }),
        ) == piped(piped(rows, filtering::<K, V, U, F>(f)), accepting::<K, U, P>(p)),
{
    assert(piped(
        rows,
        filtering::<K, V, W, OptionComposed<F, G, U>>(
            OptionComposed { first: f, second: g, types: PhantomData },
        ),
    ) =~= piped(piped(rows, filtering::<K, V, U, F>(f)), mapping::<K, U, W, G>(g)));
    assert(piped(
        rows,
        filtering::<K, V, W, OptionChained<F, H, U>>(
            OptionChained { first: f, second: h, types: PhantomData },
        ),
    ) =~= piped(piped(rows, filtering::<K, V, U, F>(f)), filtering::<K, U, W, H>(h)));
    assert(piped(
        rows,
        filtering::<K, V, U, OptionKept<F, P>>(OptionKept { first: f, predicate: p }),
    ) =~= piped(piped(rows, filtering::<K, V, U, F>(f)), accepting::<K, U, P>(p)));
}

} // verus!
