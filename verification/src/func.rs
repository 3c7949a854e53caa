//! Functions of rows whose result depends on the models of their arguments alone.
use vstd::prelude::*;

use crate::value::{models, CellValue};

verus! {

/// A function of a key and a row. Closures are such functions, and so are the functions that plans
/// put together out of others.
pub trait RowFn<A: CellValue, B: CellValue, C: CellValue>: Send + Sync + 'static {
    /// The function accepts every pair of arguments, and its result has a model that the models of
    /// the arguments decide.
    spec fn lawful(&self) -> bool;

    /// The model of the result.
    spec fn image(&self, a: A::Model, b: B::Model) -> C::Model;

    fn call(&self, a: &A, b: &B) -> (c: C)
        requires
            self.lawful(),
        ensures
            c.model() == self.image(a.model(), b.model()),
    ;
}

/// A closure that accepts every pair of arguments, and whose result has a model that the models of
/// the arguments decide.
pub open spec fn row_closure<A: CellValue, B: CellValue, C: CellValue, F: Fn(&A, &B) -> C>(
    f: F,
) -> bool {
    &&& forall|a: A, b: B| #[trigger] call_requires(f, (&a, &b))
    &&& forall|a1: A, b1: B, c1: C, a2: A, b2: B, c2: C|
        #![trigger call_ensures(f, (&a1, &b1), c1), call_ensures(f, (&a2, &b2), c2)]
        call_ensures(f, (&a1, &b1), c1) && call_ensures(f, (&a2, &b2), c2) && a1.model()
            == a2.model() && b1.model() == b2.model() ==> c1.model() == c2.model()
}

/// `c` is the model of a result of the closure on arguments with the models `a` and `b`.
pub open spec fn is_image2<A: CellValue, B: CellValue, C: CellValue, F: Fn(&A, &B) -> C>(
    f: F,
    a: A::Model,
    b: B::Model,
    c: C::Model,
) -> bool {
    exists|x: A, y: B, z: C| #[trigger]
        call_ensures(f, (&x, &y), z) && x.model() == a && y.model() == b && z.model() == c
}

impl<
    A: CellValue,
    B: CellValue,
    C: CellValue,
    F: Fn(&A, &B) -> C + Send + Sync + 'static,
> RowFn<A, B, C> for F {
    open spec fn lawful(&self) -> bool {
        row_closure::<A, B, C, F>(*self)
    }

    open spec fn image(&self, a: A::Model, b: B::Model) -> C::Model {
        choose|c: C::Model| is_image2::<A, B, C, F>(*self, a, b, c)
    }

    fn call(&self, a: &A, b: &B) -> (c: C)
        ensures
            call_ensures(*self, (a, b), c),
    {
        let c = self(a, b);
        assert(is_image2::<A, B, C, F>(*self, a.model(), b.model(), c.model()));
        c
    }
}

/// The closure is a function of a key and a row: it can be called, and what it returns has the model
/// that the function returns on arguments with these models.
pub open spec fn closure_known<
    A: CellValue,
    B: CellValue,
    C: CellValue,
    F: Fn(&A, &B) -> C + Send + Sync + 'static,
>(f: F) -> bool {
    &&& pure2::<A, B, C, F>(f)
    &&& forall|a: A, b: B, c: C| #[trigger]
        call_ensures(f, (&a, &b), c) ==> image2::<A, B, C, F>(f, a.model(), b.model()) == c.model()
}

/// A closure whose result the models of its arguments decide is a function of a key and a row.
pub proof fn closure_laws<
    A: CellValue,
    B: CellValue,
    C: CellValue,
    F: Fn(&A, &B) -> C + Send + Sync + 'static,
>(f: F)
    requires
        row_closure::<A, B, C, F>(f),
    ensures
        closure_known::<A, B, C, F>(f),
        RowFn::<A, B, C>::lawful(&f),
        forall|a: A, b: B, c: C| #[trigger]
            call_ensures(f, (&a, &b), c) ==> RowFn::<A, B, C>::image(&f, a.model(), b.model())
                == c.model(),
{
    assert forall|a: A, b: B, c: C| #[trigger] call_ensures(f, (&a, &b), c) implies image2::<
        A,
        B,
        C,
        F,
    >(f, a.model(), b.model()) == c.model() by {
        assert(is_image2::<A, B, C, F>(f, a.model(), b.model(), c.model()));
    }
}

/// The function can be called, and the models of its arguments decide the model of its result.
pub open spec fn pure2<A: CellValue, B: CellValue, C: CellValue, F: RowFn<A, B, C>>(f: F) -> bool {
    f.lawful()
}

/// The model of what a function returns on arguments with the models `a` and `b`.
pub open spec fn image2<A: CellValue, B: CellValue, C: CellValue, F: RowFn<A, B, C>>(
    f: F,
    a: A::Model,
    b: B::Model,
) -> C::Model {
    f.image(a, b)
}

/// Calls a function of a key and a row.
pub fn call2<A: CellValue, B: CellValue, C: CellValue, F: RowFn<A, B, C>>(
    f: &F,
    a: &A,
    b: &B,
) -> (c: C)
    requires
        pure2::<A, B, C, F>(*f),
    ensures
        c.model() == image2::<A, B, C, F>(*f, a.model(), b.model()),
        c.model() == f.image(a.model(), b.model()),
{
    f.call(a, b)
}

/// As [`RowFn`], for functions of a key, a row and the rows that match it.
pub trait RowsFn<
    A: CellValue,
    B: CellValue,
    R: CellValue,
    S: CellValue,
    D: CellValue,
>: Send + Sync + 'static {
    spec fn lawful(&self) -> bool;

    spec fn image(&self, a: A::Model, b: B::Model, c: Seq<(R::Model, S::Model)>) -> D::Model;

    fn call(&self, a: &A, b: &B, c: &[(R, S)]) -> (d: D)
        requires
            self.lawful(),
        ensures
            d.model() == self.image(a.model(), b.model(), models(c@)),
    ;
}

/// As [`row_closure`], for closures of a key, a row and the rows that match it.
pub open spec fn rows_closure<
    A: CellValue,
    B: CellValue,
    R: CellValue,
    S: CellValue,
    D: CellValue,
    F: Fn(&A, &B, &[(R, S)]) -> D,
>(f: F) -> bool {
    &&& forall|a: A, b: B, c: &[(R, S)]| #[trigger] call_requires(f, (&a, &b, c))
    &&& forall|a1: A, b1: B, c1: &[(R, S)], d1: D, a2: A, b2: B, c2: &[(R, S)], d2: D|
        #![trigger call_ensures(f, (&a1, &b1, c1), d1), call_ensures(f, (&a2, &b2, c2), d2)]
        call_ensures(f, (&a1, &b1, c1), d1) && call_ensures(f, (&a2, &b2, c2), d2) && a1.model()
            == a2.model() && b1.model() == b2.model() && models(c1@) == models(c2@) ==> d1.model()
            == d2.model()
}

/// As [`is_image2`], for closures of a key, a row and the rows that match it.
pub open spec fn is_image_rows<
    A: CellValue,
    B: CellValue,
    R: CellValue,
    S: CellValue,
    D: CellValue,
    F: Fn(&A, &B, &[(R, S)]) -> D,
>(f: F, a: A::Model, b: B::Model, c: Seq<(R::Model, S::Model)>, d: D::Model) -> bool {
    exists|x: A, y: B, z: &[(R, S)], w: D| #[trigger]
        call_ensures(f, (&x, &y, z), w) && x.model() == a && y.model() == b && models(z@) == c
            && w.model() == d
}

impl<
    A: CellValue,
    B: CellValue,
    R: CellValue,
    S: CellValue,
    D: CellValue,
    F: Fn(&A, &B, &[(R, S)]) -> D + Send + Sync + 'static,
> RowsFn<A, B, R, S, D> for F {
    open spec fn lawful(&self) -> bool {
        rows_closure::<A, B, R, S, D, F>(*self)
    }

    open spec fn image(&self, a: A::Model, b: B::Model, c: Seq<(R::Model, S::Model)>) -> D::Model {
        choose|d: D::Model| is_image_rows::<A, B, R, S, D, F>(*self, a, b, c, d)
    }

    fn call(&self, a: &A, b: &B, c: &[(R, S)]) -> (d: D)
        ensures
            call_ensures(*self, (a, b, c), d),
    {
        let d = self(a, b, c);
        assert(is_image_rows::<A, B, R, S, D, F>(
            *self,
            a.model(),
            b.model(),
            models(c@),
            d.model(),
        ));
        d
    }
}

/// As [`closure_known`], for closures of a key, a row and the rows that match it.
pub open spec fn rows_closure_known<
    A: CellValue,
    B: CellValue,
    R: CellValue,
    S: CellValue,
    D: CellValue,
    F: Fn(&A, &B, &[(R, S)]) -> D + Send + Sync + 'static,
>(f: F) -> bool {
    &&& pure_rows::<A, B, R, S, D, F>(f)
    &&& forall|a: A, b: B, c: &[(R, S)], d: D| #[trigger]
        call_ensures(f, (&a, &b, c), d) ==> image_rows::<A, B, R, S, D, F>(
            f,
            a.model(),
            b.model(),
            models(c@),
        ) == d.model()
}

/// As [`closure_laws`], for closures of a key, a row and the rows that match it.
pub proof fn rows_closure_laws<
    A: CellValue,
    B: CellValue,
    R: CellValue,
    S: CellValue,
    D: CellValue,
    F: Fn(&A, &B, &[(R, S)]) -> D + Send + Sync + 'static,
>(f: F)
    requires
        rows_closure::<A, B, R, S, D, F>(f),
    ensures
        rows_closure_known::<A, B, R, S, D, F>(f),
        RowsFn::<A, B, R, S, D>::lawful(&f),
        forall|a: A, b: B, c: &[(R, S)], d: D| #[trigger]
            call_ensures(f, (&a, &b, c), d) ==> RowsFn::<A, B, R, S, D>::image(
                &f,
                a.model(),
                b.model(),
                models(c@),
            ) == d.model(),
{
    assert forall|a: A, b: B, c: &[(R, S)], d: D| #[trigger]
        call_ensures(f, (&a, &b, c), d) implies image_rows::<A, B, R, S, D, F>(
        f,
        a.model(),
        b.model(),
        models(c@),
    ) == d.model() by {
        assert(is_image_rows::<A, B, R, S, D, F>(f, a.model(), b.model(), models(c@), d.model()));
    }
}

/// As [`pure2`], for functions of a key, a row and the rows that match it.
pub open spec fn pure_rows<
    A: CellValue,
    B: CellValue,
    R: CellValue,
    S: CellValue,
    D: CellValue,
    F: RowsFn<A, B, R, S, D>,
>(f: F) -> bool {
    f.lawful()
}

/// As [`image2`], for functions of a key, a row and the rows that match it.
pub open spec fn image_rows<
    A: CellValue,
    B: CellValue,
    R: CellValue,
    S: CellValue,
    D: CellValue,
    F: RowsFn<A, B, R, S, D>,
>(f: F, a: A::Model, b: B::Model, c: Seq<(R::Model, S::Model)>) -> D::Model {
    f.image(a, b, c)
}

/// Calls a function of a key, a row and the rows that match it.
pub fn call_rows<
    A: CellValue,
    B: CellValue,
    R: CellValue,
    S: CellValue,
    D: CellValue,
    F: RowsFn<A, B, R, S, D>,
>(f: &F, a: &A, b: &B, c: &[(R, S)]) -> (d: D)
    requires
        pure_rows::<A, B, R, S, D, F>(*f),
    ensures
        d.model() == image_rows::<A, B, R, S, D, F>(*f, a.model(), b.model(), models(c@)),
        d.model() == f.image(a.model(), b.model(), models(c@)),
{
    f.call(a, b, c)
}

} // verus!
