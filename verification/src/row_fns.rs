//! The functions of rows that plans put together.
use std::marker::PhantomData;
use vstd::prelude::*;

use crate::foreign_key::{ForeignKeyRelation, IdFor};
use crate::func::{RowFn, RowsFn};
use crate::join_region::declaration::{
    collect_matches, foreign_map_key, map_key, parent_key, row_values, StageProject,
};
use crate::value::{models, models_push, CellValue, MapKey};

verus! {

/// A function of a row that looks at its value alone.
pub struct OnValue<F>(pub F);

/// `c` is the model of a result of the closure on a value with the model `b`.
pub open spec fn is_image1<B: CellValue, C: CellValue, F: Fn(&B) -> C>(
    f: F,
    b: B::Model,
    c: C::Model,
) -> bool {
    exists|y: B, z: C| #[trigger] call_ensures(f, (&y,), z) && y.model() == b && z.model() == c
}

/// The closure can be called, and the model of its argument decides that of its result.
pub open spec fn pure1<B: CellValue, C: CellValue, F: Fn(&B) -> C>(f: F) -> bool {
    &&& forall|b: B| #[trigger] call_requires(f, (&b,))
    &&& forall|b1: B, c1: C, b2: B, c2: C|
        #![trigger call_ensures(f, (&b1,), c1), call_ensures(f, (&b2,), c2)]
        call_ensures(f, (&b1,), c1) && call_ensures(f, (&b2,), c2) && b1.model() == b2.model()
            ==> c1.model() == c2.model()
}

/// The model of what a closure returns on a value with the model `b`.
pub open spec fn image1<B: CellValue, C: CellValue, F: Fn(&B) -> C>(f: F, b: B::Model) -> C::Model {
    choose|c: C::Model| is_image1::<B, C, F>(f, b, c)
}

impl<
    A: CellValue,
    B: CellValue,
    C: CellValue,
    F: Fn(&B) -> C + Send + Sync + 'static,
> RowFn<A, B, C> for OnValue<F> {
    open spec fn lawful(&self) -> bool {
        pure1::<B, C, F>(self.0)
    }

    open spec fn image(&self, a: A::Model, b: B::Model) -> C::Model {
        image1::<B, C, F>(self.0, b)
    }

    fn call(&self, a: &A, b: &B) -> (c: C)
        ensures
            call_ensures(self.0, (b,), c),
    {
        let c = (self.0)(b);
        assert(is_image1::<B, C, F>(self.0, b.model(), c.model()));
        c
    }
}

/// One function after another: the second sees the key and the result of the first.
pub struct Composed<F, G, U> {
    pub first: F,
    pub second: G,
    pub types: PhantomData<U>,
}

impl<
    K: CellValue,
    V: CellValue,
    U: CellValue,
    W: CellValue,
    F: RowFn<K, V, U>,
    G: RowFn<K, U, W>,
> RowFn<K, V, W> for Composed<F, G, U> {
    open spec fn lawful(&self) -> bool {
        self.first.lawful() && self.second.lawful()
    }

    open spec fn image(&self, a: K::Model, b: V::Model) -> W::Model {
        self.second.image(a, self.first.image(a, b))
    }

    fn call(&self, a: &K, b: &V) -> (c: W)
        ensures
            c.model() == self.second.image(a.model(), self.first.image(a.model(), b.model())),
    {
        let value = self.first.call(a, b);
        self.second.call(a, &value)
    }
}

/// The result of a function, where a predicate accepts it.
pub struct Kept<F, P> {
    pub first: F,
    pub predicate: P,
}

impl<
    K: CellValue,
    V: CellValue,
    U: CellValue,
    F: RowFn<K, V, U>,
    P: RowFn<K, U, bool>,
> RowFn<K, V, Option<U>> for Kept<F, P> {
    open spec fn lawful(&self) -> bool {
        self.first.lawful() && self.predicate.lawful()
    }

    open spec fn image(&self, a: K::Model, b: V::Model) -> Option<U::Model> {
        let value = self.first.image(a, b);
        if self.predicate.image(a, value) {
            Some(value)
        } else {
            None
        }
    }

    fn call(&self, a: &K, b: &V) -> (c: Option<U>)
        ensures
            c is Some == self.predicate.image(a.model(), self.first.image(a.model(), b.model())),
            c is Some ==> c->Some_0.model() == self.first.image(a.model(), b.model()),
    {
        let value = self.first.call(a, b);
        if self.predicate.call(a, &value) {
            Some(value)
        } else {
            None
        }
    }
}

/// A function of the result of another, where that one has a result.
pub struct OptionComposed<F, G, U> {
    pub first: F,
    pub second: G,
    pub types: PhantomData<U>,
}

impl<
    K: CellValue,
    V: CellValue,
    U: CellValue,
    W: CellValue,
    F: RowFn<K, V, Option<U>>,
    G: RowFn<K, U, W>,
> RowFn<K, V, Option<W>> for OptionComposed<F, G, U> {
    open spec fn lawful(&self) -> bool {
        self.first.lawful() && self.second.lawful()
    }

    open spec fn image(&self, a: K::Model, b: V::Model) -> Option<W::Model> {
        match self.first.image(a, b) {
            Some(value) => Some(self.second.image(a, value)),
            None => None,
        }
    }

    fn call(&self, a: &K, b: &V) -> (c: Option<W>)
        ensures
            c is Some == self.first.image(a.model(), b.model()) is Some,
            c is Some ==> c->Some_0.model() == self.second.image(
                a.model(),
                self.first.image(a.model(), b.model())->Some_0,
            ),
    {
        match self.first.call(a, b) {
            Some(value) => Some(self.second.call(a, &value)),
            None => None,
        }
    }
}

/// A function that may have no result, of the result of another, where that one has a result.
pub struct OptionChained<F, G, U> {
    pub first: F,
    pub second: G,
    pub types: PhantomData<U>,
}

impl<
    K: CellValue,
    V: CellValue,
    U: CellValue,
    W: CellValue,
    F: RowFn<K, V, Option<U>>,
    G: RowFn<K, U, Option<W>>,
> RowFn<K, V, Option<W>> for OptionChained<F, G, U> {
    open spec fn lawful(&self) -> bool {
        self.first.lawful() && self.second.lawful()
    }

    open spec fn image(&self, a: K::Model, b: V::Model) -> Option<W::Model> {
        match self.first.image(a, b) {
            Some(value) => self.second.image(a, value),
            None => None,
        }
    }

    fn call(&self, a: &K, b: &V) -> (c: Option<W>)
        ensures
            self.first.image(a.model(), b.model()) is None ==> c is None,
            self.first.image(a.model(), b.model()) is Some ==> c.model() == self.second.image(
                a.model(),
                self.first.image(a.model(), b.model())->Some_0,
            ),
    {
        match self.first.call(a, b) {
            Some(value) => self.second.call(a, &value),
            None => None,
        }
    }
}

/// The result of a function, where it has one and a predicate accepts it.
pub struct OptionKept<F, P> {
    pub first: F,
    pub predicate: P,
}

impl<
    K: CellValue,
    V: CellValue,
    U: CellValue,
    F: RowFn<K, V, Option<U>>,
    P: RowFn<K, U, bool>,
> RowFn<K, V, Option<U>> for OptionKept<F, P> {
    open spec fn lawful(&self) -> bool {
        self.first.lawful() && self.predicate.lawful()
    }

    open spec fn image(&self, a: K::Model, b: V::Model) -> Option<U::Model> {
        match self.first.image(a, b) {
            Some(value) => if self.predicate.image(a, value) {
                Some(value)
            } else {
                None
            },
            None => None,
        }
    }

    fn call(&self, a: &K, b: &V) -> (c: Option<U>)
        ensures
            c is Some == (self.first.image(a.model(), b.model()) is Some && self.predicate.image(
                a.model(),
                self.first.image(a.model(), b.model())->Some_0,
            )),
            c is Some ==> Some(c->Some_0.model()) == self.first.image(a.model(), b.model()),
    {
        match self.first.call(a, b) {
            Some(value) => if self.predicate.call(a, &value) {
                Some(value)
            } else {
                None
            },
            None => None,
        }
    }
}

/// The key of a row, as its join key.
#[derive(Clone, Copy, Debug)]
pub struct OwnKey;

impl<K: CellValue, V: CellValue> RowFn<K, V, K> for OwnKey {
    open spec fn lawful(&self) -> bool {
        true
    }

    open spec fn image(&self, a: K::Model, b: V::Model) -> K::Model {
        a
    }

    fn call(&self, a: &K, b: &V) -> (c: K)
        ensures
            c.model() == a.model(),
    {
        map_key(a, b)
    }
}

/// The map key of the parent of a child row, as its join key.
pub struct ParentKey<Rel>(pub PhantomData<Rel>);

impl<Rel: ForeignKeyRelation, RK: CellValue, K: CellValue> RowFn<
    RK,
    Rel::Child,
    Option<K>,
> for ParentKey<Rel> where Rel::ForeignKey: IdFor<Rel::Parent, MapKey = K> {
    open spec fn lawful(&self) -> bool {
        true
    }

    open spec fn image(&self, a: RK::Model, b: <Rel::Child as CellValue>::Model) -> Option<K::Model> {
        parent_key::<Rel, K>(b)
    }

    fn call(&self, a: &RK, b: &Rel::Child) -> (c: Option<K>)
        ensures
            c is Some == Rel::key_of(b.model()) is Some,
            c is Some ==> c->Some_0.model() == <Rel::ForeignKey as IdFor<Rel::Parent>>::key_for(
                Rel::key_of(b.model())->Some_0,
            ),
    {
        foreign_map_key::<Rel, RK, K>(a, b)
    }
}

/// The one row that a function gives, as rows.
pub struct OneRow<F>(pub F);

impl<
    SK: CellValue,
    SV: CellValue,
    OK: CellValue,
    OV: CellValue,
    F: RowFn<SK, SV, (OK, OV)>,
> RowFn<SK, SV, Vec<(OK, OV)>> for OneRow<F> {
    open spec fn lawful(&self) -> bool {
        self.0.lawful()
    }

    open spec fn image(&self, a: SK::Model, b: SV::Model) -> Seq<(OK::Model, OV::Model)> {
        seq![self.0.image(a, b)]
    }

    fn call(&self, a: &SK, b: &SV) -> (c: Vec<(OK, OV)>)
        ensures
            c@.len() == 1,
            (c@[0].0.model(), c@[0].1.model()) == self.0.image(a.model(), b.model()),
    {
        let row = self.0.call(a, b);
        let mut rows: Vec<(OK, OV)> = Vec::new();
        rows.push(row);
        assert(models(rows@) =~= seq![self.0.image(a.model(), b.model())]);
        rows
    }
}

/// The row that a function gives, if any, as rows.
pub struct MaybeRow<F>(pub F);

impl<
    SK: CellValue,
    SV: CellValue,
    OK: CellValue,
    OV: CellValue,
    F: RowFn<SK, SV, Option<(OK, OV)>>,
> RowFn<SK, SV, Vec<(OK, OV)>> for MaybeRow<F> {
    open spec fn lawful(&self) -> bool {
        self.0.lawful()
    }

    open spec fn image(&self, a: SK::Model, b: SV::Model) -> Seq<(OK::Model, OV::Model)> {
        match self.0.image(a, b) {
            Some(row) => seq![row],
            None => Seq::empty(),
        }
    }

    fn call(&self, a: &SK, b: &SV) -> (c: Vec<(OK, OV)>)
        ensures
            self.0.image(a.model(), b.model()) is None ==> c@.len() == 0,
            self.0.image(a.model(), b.model()) is Some ==> c@.len() == 1 && Some(
                (c@[0].0.model(), c@[0].1.model()),
            ) == self.0.image(a.model(), b.model()),
    {
        let mut rows: Vec<(OK, OV)> = Vec::new();
        match self.0.call(a, b) {
            Some(row) => {
                rows.push(row);
            },
            None => {},
        }
        assert(models(rows@) =~= self.image(a.model(), b.model()));
        rows
    }
}

/// The row itself where a predicate accepts its value, as rows.
pub struct AcceptedRow<F>(pub F);

impl<K: CellValue, V: CellValue, F: Fn(&V) -> bool + Send + Sync + 'static> RowFn<
    K,
    V,
    Vec<(K, V)>,
> for AcceptedRow<F> {
    open spec fn lawful(&self) -> bool {
        pure1::<V, bool, F>(self.0)
    }

    open spec fn image(&self, a: K::Model, b: V::Model) -> Seq<(K::Model, V::Model)> {
        if image1::<V, bool, F>(self.0, b) {
            seq![(a, b)]
        } else {
            Seq::empty()
        }
    }

    fn call(&self, a: &K, b: &V) -> (c: Vec<(K, V)>)
        ensures
            call_ensures(self.0, (b,), c@.len() > 0),
            c@.len() <= 1,
            c@.len() == 1 ==> c@[0].0.model() == a.model() && c@[0].1.model() == b.model(),
    {
        let mut rows: Vec<(K, V)> = Vec::new();
        let accepted = (self.0)(b);
        assert(is_image1::<V, bool, F>(self.0, b.model(), accepted));
        if accepted {
            rows.push((a.clone_value(), b.clone_value()));
        }
        assert(models(rows@) =~= RowFn::<K, V, Vec<(K, V)>>::image(self, a.model(), b.model()));
        rows
    }
}

/// Rows with local keys, each key scoped by the key of the source row.
pub open spec fn scoped<SK, LK, OV>(source: SK, rows: Seq<(LK, OV)>) -> Seq<((SK, LK), OV)> {
    rows.map_values(|row: (LK, OV)| ((source, row.0), row.1))
}

/// Scoping keeps every row, in its place: its key is the source key with the local key, and its value is
/// its own.
pub proof fn scoped_in_place<SK, LK, OV>(source: SK, rows: Seq<(LK, OV)>)
    ensures
        scoped(source, rows).len() == rows.len(),
        forall|i: int|
            0 <= i < rows.len() ==> (#[trigger] scoped(source, rows)[i]).0 == (source, rows[i].0)
                && scoped(source, rows)[i].1 == rows[i].1,
{
}

/// The rows that a function gives, with local keys scoped by the key of the source row.
pub struct ScopedRows<F>(pub F);

impl<
    SK: CellValue,
    SV: CellValue,
    LK: CellValue,
    OV: CellValue,
    F: RowFn<SK, SV, Vec<(LK, OV)>>,
> RowFn<SK, SV, Vec<((SK, LK), OV)>> for ScopedRows<F> {
    open spec fn lawful(&self) -> bool {
        self.0.lawful()
    }

    open spec fn image(&self, a: SK::Model, b: SV::Model) -> Seq<((SK::Model, LK::Model), OV::Model)> {
        scoped(a, self.0.image(a, b))
    }

    fn call(&self, a: &SK, b: &SV) -> (c: Vec<((SK, LK), OV)>)
        ensures
            c@.len() == self.0.image(a.model(), b.model()).len(),
            forall|i: int|
                0 <= i < c@.len() ==> (#[trigger] c@[i]).0.0.model() == a.model() && (
                    c@[i].0.1.model(),
                    c@[i].1.model(),
                ) == self.0.image(a.model(), b.model())[i],
    {
        let local = self.0.call(a, b);
        let ghost want = scoped(a.model(), models(local@));
        let mut rows: Vec<((SK, LK), OV)> = Vec::new();
        let mut i: usize = 0;
        assert(models(rows@) =~= want.take(0));
        while i < local.len()
            invariant
                i <= local@.len(),
                want == scoped(a.model(), models(local@)),
                models(rows@) == want.take(i as int),
                rows@.len() == i,
                forall|n: int|
                    0 <= n < i ==> (#[trigger] rows@[n]).0.0.model() == a.model()
                        && rows@[n].0.1.model() == local@[n].0.model() && rows@[n].1.model()
                        == local@[n].1.model(),
            decreases local@.len() - i,
        {
            let (key, value) = &local[i];
            let row = ((a.clone_value(), key.clone_value()), value.clone_value());
            proof {
                models_push(rows@, row);
                assert(want.take(i as int).push(row.model()) =~= want.take(i + 1));
            }
            rows.push(row);
            i += 1;
        }
        assert(want.take(i as int) =~= want);
        assert forall|n: int| 0 <= n < rows@.len() implies (#[trigger] rows@[n]).0.0.model()
            == a.model() && (rows@[n].0.1.model(), rows@[n].1.model()) == self.0.image(
            a.model(),
            b.model(),
        )[n] by {
            assert(models(local@)[n] == local@[n].model());
        }
        rows
    }
}

/// A left row with the values of the right rows that match it.
#[derive(Clone, Copy, Debug)]
pub struct Collected;

impl<K: CellValue, Input: CellValue, RK: CellValue, RV: CellValue> RowsFn<
    K,
    Input,
    RK,
    RV,
    (Input, Vec<RV>),
> for Collected {
    open spec fn lawful(&self) -> bool {
        true
    }

    open spec fn image(
        &self,
        a: K::Model,
        b: Input::Model,
        c: Seq<(RK::Model, RV::Model)>,
    ) -> (Input::Model, Seq<RV::Model>) {
        (b, row_values(c))
    }

    fn call(&self, a: &K, b: &Input, c: &[(RK, RV)]) -> (d: (Input, Vec<RV>))
        ensures
            d.0.model() == b.model(),
            d.1@.len() == c@.len(),
            forall|i: int| 0 <= i < c@.len() ==> (#[trigger] d.1@[i]).model() == c@[i].1.model(),
    {
        collect_matches(a, b, c)
    }
}

/// A left row with each of the right rows that match it.
pub open spec fn pairs<LK, LV, RK, RV>(key: LK, value: LV, rights: Seq<(RK, RV)>) -> Seq<
    ((LK, RK), (LV, RV)),
> {
    rights.map_values(|r: (RK, RV)| ((key, r.0), (value, r.1)))
}

/// Pairing keeps every right row, in its place: its key is both keys, and its value is both values.
pub proof fn pairs_in_place<LK, LV, RK, RV>(key: LK, value: LV, rights: Seq<(RK, RV)>)
    ensures
        pairs(key, value, rights).len() == rights.len(),
        forall|i: int|
            0 <= i < rights.len() ==> (#[trigger] pairs(key, value, rights)[i]).0 == (
                key,
                rights[i].0,
            ) && pairs(key, value, rights)[i].1 == (value, rights[i].1),
{
}

/// A left row with each of the right rows that match it, keyed by both keys.
#[derive(Clone, Copy, Debug)]
pub struct Paired;

impl<LK: CellValue, LV: CellValue, RK: CellValue, RV: CellValue> RowsFn<
    LK,
    LV,
    RK,
    RV,
    Vec<((LK, RK), (LV, RV))>,
> for Paired {
    open spec fn lawful(&self) -> bool {
        true
    }

    open spec fn image(
        &self,
        a: LK::Model,
        b: LV::Model,
        c: Seq<(RK::Model, RV::Model)>,
    ) -> Seq<((LK::Model, RK::Model), (LV::Model, RV::Model))> {
        pairs(a, b, c)
    }

    fn call(&self, a: &LK, b: &LV, c: &[(RK, RV)]) -> (d: Vec<((LK, RK), (LV, RV))>)
        ensures
            d@.len() == c@.len(),
            forall|i: int|
                0 <= i < c@.len() ==> (#[trigger] d@[i]).0.0.model() == a.model()
                    && d@[i].0.1.model() == c@[i].0.model() && d@[i].1.0.model() == b.model()
                    && d@[i].1.1.model() == c@[i].1.model(),
    {
        let ghost want = pairs(a.model(), b.model(), models(c@));
        let mut rows: Vec<((LK, RK), (LV, RV))> = Vec::new();
        let mut i: usize = 0;
        assert(models(rows@) =~= want.take(0));
        while i < c.len()
            invariant
                i <= c@.len(),
                want == pairs(a.model(), b.model(), models(c@)),
                models(rows@) == want.take(i as int),
                rows@.len() == i,
                forall|n: int|
                    0 <= n < i ==> (#[trigger] rows@[n]).0.0.model() == a.model()
                        && rows@[n].0.1.model() == c@[n].0.model() && rows@[n].1.0.model()
                        == b.model() && rows@[n].1.1.model() == c@[n].1.model(),
            decreases c@.len() - i,
        {
            let (right_key, right_value) = &c[i];
            let row = (
                (a.clone_value(), right_key.clone_value()),
                (b.clone_value(), right_value.clone_value()),
            );
            proof {
                models_push(rows@, row);
                assert(want.take(i as int).push(row.model()) =~= want.take(i + 1));
            }
            rows.push(row);
            i += 1;
        }
        assert(want.take(i as int) =~= want);
        rows
    }
}

/// A left row that has a right row that matches it.
#[derive(Clone, Copy, Debug)]
pub struct Matched;

impl<LK: CellValue, LV: CellValue, RK: CellValue, RV: CellValue> RowsFn<
    LK,
    LV,
    RK,
    RV,
    Vec<(LK, LV)>,
> for Matched {
    open spec fn lawful(&self) -> bool {
        true
    }

    open spec fn image(
        &self,
        a: LK::Model,
        b: LV::Model,
        c: Seq<(RK::Model, RV::Model)>,
    ) -> Seq<(LK::Model, LV::Model)> {
        if c.len() == 0 {
            Seq::empty()
        } else {
            seq![(a, b)]
        }
    }

    fn call(&self, a: &LK, b: &LV, c: &[(RK, RV)]) -> (d: Vec<(LK, LV)>)
        ensures
            c@.len() == 0 ==> d@.len() == 0,
            c@.len() > 0 ==> d@.len() == 1 && d@[0].0.model() == a.model() && d@[0].1.model()
                == b.model(),
    {
        let mut rows: Vec<(LK, LV)> = Vec::new();
        if c.len() > 0 {
            rows.push((a.clone_value(), b.clone_value()));
        }
        assert(models(rows@) =~= RowsFn::<LK, LV, RK, RV, Vec<(LK, LV)>>::image(
            self,
            a.model(),
            b.model(),
            models(c@),
        ));
        rows
    }
}

/// A left row with the first of the right rows that match it, if there is one.
#[derive(Clone, Copy, Debug)]
pub struct FirstMatch;

impl<LK: CellValue, LV: CellValue, RK: CellValue, RV: CellValue> StageProject<
    LK,
    LV,
    RK,
    RV,
    (LV, RV),
> for FirstMatch {
    open spec fn lawful(&self) -> bool {
        true
    }

    open spec fn projected(
        &self,
        key: LK::Model,
        input: LV::Model,
        rights: Seq<(RK::Model, RV::Model)>,
    ) -> Option<(LV::Model, RV::Model)> {
        if rights.len() == 0 {
            None
        } else {
            Some((input, rights[0].1))
        }
    }

    fn project(&self, key: &LK, input: &LV, rights: &[(RK, RV)]) -> (output: Option<(LV, RV)>)
        ensures
            output is Some == (rights@.len() > 0),
            output is Some ==> output->Some_0.0.model() == input.model()
                && output->Some_0.1.model() == rights@[0].1.model(),
    {
        if rights.len() == 0 {
            None
        } else {
            Some((input.clone_value(), rights[0].1.clone_value()))
        }
    }
}

} // verus!
