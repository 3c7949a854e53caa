//! What the operators on one source give, row by row of the source.
use vstd::prelude::*;

use crate::diff::{fits_all, replay, Change, MapDiff};
use crate::diff_laws::{keys_in_place, last_entry_stays};
use crate::func::RowFn;
use crate::fx::lookup;
use crate::index::{entry_keys, rows_of};
use crate::map_runtime::MapRuntime;
use crate::projection_laws::projection_follows;
use crate::row_fns::{
    image1, is_image1, pure1, scoped_in_place, AcceptedRow, MaybeRow, OneRow, ScopedRows,
};
use crate::select::select_rows;
use crate::stateless_runtime::{becomes, filtering, mapping, piped_change, piped_steps_follow};
use crate::value::{CellValue, MapKey};

verus! {

/// A projection gives the rows that its function makes of the rows of its source, and no other: each of
/// them is in the output under its key, and each row of the output is one of them, of one row of the
/// source alone.
pub proof fn projected_rows<
    SK: MapKey,
    SV: CellValue,
    OK: MapKey,
    OV: CellValue,
    F: RowFn<SK, SV, Vec<(OK, OV)>>,
>(
    runtime: MapRuntime<SK, SV, OK, OV, F>,
    source: Seq<Change<SK::Model, SV::Model>>,
    told: Seq<Change<OK::Model, OV::Model>>,
)
    requires
        projection_follows(runtime, source, told),
    ensures
        forall|k: SK::Model, i: int|
            replay(Map::empty(), source).contains_key(k) && 0 <= i < runtime.compute().image(
                k,
                replay(Map::empty(), source)[k],
            ).len() ==> {
                let row = #[trigger] runtime.compute().image(k, replay(Map::empty(), source)[k])[i];
                replay(Map::empty(), told).contains_key(row.0) && replay(Map::empty(), told)[row.0]
                    == row.1
            },
        forall|o: OK::Model| #[trigger]
            replay(Map::empty(), told).contains_key(o) ==> exists|k: SK::Model, i: int|
                replay(Map::empty(), source).contains_key(k) && 0 <= i < runtime.compute().image(
                    k,
                    replay(Map::empty(), source)[k],
                ).len() && (#[trigger] runtime.compute().image(k, replay(Map::empty(), source)[k])[i]).0
                    == o,
        forall|x: SK::Model, i: int, y: SK::Model, j: int|
            replay(Map::empty(), source).contains_key(x) && replay(Map::empty(), source).contains_key(y)
                && 0 <= i < runtime.compute().image(x, replay(Map::empty(), source)[x]).len() && 0 <= j
                < runtime.compute().image(y, replay(Map::empty(), source)[y]).len() && (
            #[trigger] runtime.compute().image(x, replay(Map::empty(), source)[x])[i]).0 == (
            #[trigger] runtime.compute().image(y, replay(Map::empty(), source)[y])[j]).0 ==> x == y && i
                == j,
{
    let m = rows_of(source);
    let out = rows_of(told);
    let output = runtime.output();
    let rows = runtime.rows();
    let f = runtime.compute();
    assert(m == replay(Map::empty(), source) && out == replay(Map::empty(), told));
    assert(out == output.cache && m == runtime.source());
    assert forall|k: SK::Model, i: int| m.contains_key(k) && 0 <= i < f.image(k, m[k]).len() implies {
        let row = #[trigger] f.image(k, m[k])[i];
        out.contains_key(row.0) && out[row.0] == row.1 && lookup(output.owners, row.0) == Some(k)
            && forall|j: int| 0 <= j < f.image(k, m[k]).len() && j != i ==> (#[trigger] f.image(k, m[k])[j]).0 != row.0
    } by {
        let made = f.image(k, m[k]);
        assert(rows(k) == made);
        let row = made[i];
        keys_in_place(made);
        last_entry_stays(made);
        assert(output.keys_of(k) == entry_keys(rows(k)) && output.keys_of(k).no_duplicates());
        assert(entry_keys(made)[i] == row.0);
        assert(entry_keys(rows(k)).contains(row.0));
        assert forall|j: int| 0 <= j < made.len() && j != i implies (#[trigger] made[j]).0 != row.0 by {
            assert(entry_keys(made)[j] == made[j].0);
        }
        assert(lookup(output.cache, row.0) is Some);
    }
    assert forall|o: OK::Model| #[trigger] out.contains_key(o) implies exists|k: SK::Model, i: int|
        m.contains_key(k) && 0 <= i < f.image(k, m[k]).len() && (#[trigger] f.image(k, m[k])[i]).0 == o by {
        assert(lookup(output.cache, o) is Some);
        let k = output.owners[o];
        assert(lookup(output.owners, o) == Some(k));
        assert(entry_keys(rows(k)).contains(o));
        if !m.contains_key(k) {
            assert(rows(k) =~= Seq::empty());
        }
        let made = f.image(k, m[k]);
        assert(rows(k) == made);
        keys_in_place(made);
        let i = choose|i: int| 0 <= i < entry_keys(made).len() && entry_keys(made)[i] == o;
        assert(f.image(k, m[k])[i].0 == o);
    }
}

/// A flat projection gives, for each row of the source and each local key that its function gives there,
/// what the function gives under it, under the source key and the local key; and nothing else.
pub proof fn flat_mapped_rows<
    SK: MapKey,
    SV: CellValue,
    LK: MapKey,
    OV: CellValue,
    F: RowFn<SK, SV, Vec<(LK, OV)>>,
>(
    runtime: MapRuntime<SK, SV, (SK, LK), OV, ScopedRows<F>>,
    source: Seq<Change<SK::Model, SV::Model>>,
    told: Seq<Change<(SK::Model, LK::Model), OV::Model>>,
    k: SK::Model,
    l: LK::Model,
)
    requires
        projection_follows(runtime, source, told),
    ensures
        replay(Map::empty(), told).contains_key((k, l)) <==> replay(Map::empty(), source).contains_key(k)
            && exists|i: int|
            0 <= i < runtime.compute().0.image(k, replay(Map::empty(), source)[k]).len() && (
            #[trigger] runtime.compute().0.image(k, replay(Map::empty(), source)[k])[i]).0 == l,
        forall|i: int|
            replay(Map::empty(), source).contains_key(k) && 0 <= i < runtime.compute().0.image(
                k,
                replay(Map::empty(), source)[k],
            ).len() && (#[trigger] runtime.compute().0.image(k, replay(Map::empty(), source)[k])[i]).0 == l
                ==> replay(Map::empty(), told)[(k, l)] == runtime.compute().0.image(
                k,
                replay(Map::empty(), source)[k],
            )[i].1,
{
    let m = replay(Map::empty(), source);
    let out = replay(Map::empty(), told);
    let f = runtime.compute().0;
    projected_rows::<SK, SV, (SK, LK), OV, ScopedRows<F>>(runtime, source, told);
    assert forall|x: SK::Model| #[trigger]
        runtime.compute().image(x, m[x]).len() == f.image(x, m[x]).len() && forall|i: int|
        0 <= i < f.image(x, m[x]).len() ==> #[trigger] runtime.compute().image(x, m[x])[i] == (
            (x, f.image(x, m[x])[i].0),
            f.image(x, m[x])[i].1,
        ) by {
        scoped_in_place(x, f.image(x, m[x]));
    }
    if m.contains_key(k) {
        assert(runtime.compute().image(k, m[k]).len() == f.image(k, m[k]).len());
        assert forall|i: int| 0 <= i < f.image(k, m[k]).len() && (#[trigger] f.image(k, m[k])[i]).0 == l
            implies out.contains_key((k, l)) && out[(k, l)] == f.image(k, m[k])[i].1 by {
            assert(runtime.compute().image(k, m[k])[i] == ((k, l), f.image(k, m[k])[i].1));
        }
    }
    if out.contains_key((k, l)) {
        let (x, i) = choose|x: SK::Model, i: int|
            m.contains_key(x) && 0 <= i < runtime.compute().image(x, m[x]).len() && (
            #[trigger] runtime.compute().image(x, m[x])[i]).0 == (k, l);
        assert(runtime.compute().image(x, m[x]).len() == f.image(x, m[x]).len());
        assert(f.image(k, m[k])[i].0 == l);
    }
}

/// A projection of each row to one row gives just these rows.
pub proof fn mapped_entries<
    SK: MapKey,
    SV: CellValue,
    OK: MapKey,
    OV: CellValue,
    F: RowFn<SK, SV, (OK, OV)>,
>(
    runtime: MapRuntime<SK, SV, OK, OV, OneRow<F>>,
    source: Seq<Change<SK::Model, SV::Model>>,
    told: Seq<Change<OK::Model, OV::Model>>,
)
    requires
        projection_follows(runtime, source, told),
    ensures
        forall|k: SK::Model| #[trigger]
            replay(Map::empty(), source).contains_key(k) ==> {
                let row = runtime.compute().0.image(k, replay(Map::empty(), source)[k]);
                replay(Map::empty(), told).contains_key(row.0) && replay(Map::empty(), told)[row.0]
                    == row.1
            },
        forall|o: OK::Model| #[trigger]
            replay(Map::empty(), told).contains_key(o) ==> exists|k: SK::Model| #[trigger]
                replay(Map::empty(), source).contains_key(k) && runtime.compute().0.image(
                    k,
                    replay(Map::empty(), source)[k],
                ).0 == o,
{
    let m = replay(Map::empty(), source);
    let out = replay(Map::empty(), told);
    let f = runtime.compute().0;
    projected_rows::<SK, SV, OK, OV, OneRow<F>>(runtime, source, told);
    assert forall|k: SK::Model| #[trigger] m.contains_key(k) implies {
        let row = f.image(k, m[k]);
        out.contains_key(row.0) && out[row.0] == row.1
    } by {
        assert(runtime.compute().image(k, m[k])[0] == f.image(k, m[k]));
    }
    assert forall|o: OK::Model| #[trigger] out.contains_key(o) implies exists|k: SK::Model| #[trigger]
        m.contains_key(k) && f.image(k, m[k]).0 == o by {
        let (k, i) = choose|k: SK::Model, i: int|
            m.contains_key(k) && 0 <= i < runtime.compute().image(k, m[k]).len() && (
            #[trigger] runtime.compute().image(k, m[k])[i]).0 == o;
        assert(m.contains_key(k) && f.image(k, m[k]).0 == o);
    }
}

/// A projection of each row to one row or none gives just the rows that there are.
pub proof fn filter_mapped_entries<
    SK: MapKey,
    SV: CellValue,
    OK: MapKey,
    OV: CellValue,
    F: RowFn<SK, SV, Option<(OK, OV)>>,
>(
    runtime: MapRuntime<SK, SV, OK, OV, MaybeRow<F>>,
    source: Seq<Change<SK::Model, SV::Model>>,
    told: Seq<Change<OK::Model, OV::Model>>,
)
    requires
        projection_follows(runtime, source, told),
    ensures
        forall|k: SK::Model| #[trigger]
            replay(Map::empty(), source).contains_key(k) && runtime.compute().0.image(
                k,
                replay(Map::empty(), source)[k],
            ) is Some ==> {
                let row = runtime.compute().0.image(k, replay(Map::empty(), source)[k])->Some_0;
                replay(Map::empty(), told).contains_key(row.0) && replay(Map::empty(), told)[row.0]
                    == row.1
            },
        forall|o: OK::Model| #[trigger]
            replay(Map::empty(), told).contains_key(o) ==> exists|k: SK::Model| #[trigger]
                replay(Map::empty(), source).contains_key(k) && runtime.compute().0.image(
                    k,
                    replay(Map::empty(), source)[k],
                ) is Some && runtime.compute().0.image(k, replay(Map::empty(), source)[k])->Some_0.0 == o,
{
    let m = replay(Map::empty(), source);
    let out = replay(Map::empty(), told);
    let f = runtime.compute().0;
    projected_rows::<SK, SV, OK, OV, MaybeRow<F>>(runtime, source, told);
    assert forall|k: SK::Model| #[trigger] m.contains_key(k) && f.image(k, m[k]) is Some implies {
        let row = f.image(k, m[k])->Some_0;
        out.contains_key(row.0) && out[row.0] == row.1
    } by {
        assert(runtime.compute().image(k, m[k])[0] == f.image(k, m[k])->Some_0);
    }
    assert forall|o: OK::Model| #[trigger] out.contains_key(o) implies exists|k: SK::Model| #[trigger]
        m.contains_key(k) && f.image(k, m[k]) is Some && f.image(k, m[k])->Some_0.0 == o by {
        let (k, i) = choose|k: SK::Model, i: int|
            m.contains_key(k) && 0 <= i < runtime.compute().image(k, m[k]).len() && (
            #[trigger] runtime.compute().image(k, m[k])[i]).0 == o;
        assert(m.contains_key(k) && f.image(k, m[k]) is Some && f.image(k, m[k])->Some_0.0 == o);
    }
}

/// What a closure of a value is spoken of by is what it returns.
pub proof fn returned_of_value<B: CellValue, C: CellValue, F: Fn(&B) -> C>(f: F, b: B, c: C)
    requires
        pure1::<B, C, F>(f),
        call_ensures(f, (&b,), c),
    ensures
        image1::<B, C, F>(f, b.model()) == c.model(),
{
    assert(is_image1::<B, C, F>(f, b.model(), c.model()));
    let chosen = image1::<B, C, F>(f, b.model());
    assert(is_image1::<B, C, F>(f, b.model(), chosen));
}

/// A filter gives the rows of its source whose value its predicate accepts, as they are, and no other.
pub proof fn selected_rows<K: MapKey, V: CellValue, F: Fn(&V) -> bool + Send + Sync + 'static>(
    runtime: MapRuntime<K, V, K, V, AcceptedRow<F>>,
    source: Seq<Change<K::Model, V::Model>>,
    told: Seq<Change<K::Model, V::Model>>,
    k: K::Model,
)
    requires
        projection_follows(runtime, source, told),
    ensures
        replay(Map::empty(), told).contains_key(k) <==> replay(Map::empty(), source).contains_key(k)
            && image1::<V, bool, F>(runtime.compute().0, replay(Map::empty(), source)[k]),
        replay(Map::empty(), told).contains_key(k) ==> replay(Map::empty(), told)[k] == replay(
            Map::empty(),
            source,
        )[k],
{
    select_rows::<K, V, F>(runtime, k);
}

/// Mapped values follow their source: where a diff tells the truth about the rows of a source, what it
/// becomes tells the truth about the mapped rows, and leads from these to one row for each row that the
/// source then has, under its key, with what the function makes of it.
pub proof fn mapped_values<K: CellValue, V: CellValue, U: CellValue, F: RowFn<K, V, U>>(
    f: F,
    m: Map<K::Model, V::Model>,
    out: Map<K::Model, U::Model>,
    diff: MapDiff<K, V>,
    told: Option<MapDiff<K, U>>,
) -> (after: Map<K::Model, U::Model>)
    requires
        becomes(&diff, mapping::<K, V, U, F>(f), told),
        fits_all(m, diff.steps()),
        forall|k: K::Model| #[trigger] out.contains_key(k) == m.contains_key(k),
        forall|k: K::Model| #[trigger] out.contains_key(k) ==> out[k] == f.image(k, m[k]),
    ensures
        told matches Some(d) ==> fits_all(out, d.steps()) && after == replay(out, d.steps()),
        told is None ==> after == out,
        forall|k: K::Model| #[trigger]
            after.contains_key(k) == replay(m, diff.steps()).contains_key(k),
        forall|k: K::Model| #[trigger]
            after.contains_key(k) ==> after[k] == f.image(k, replay(m, diff.steps())[k]),
{
    let p = mapping::<K, V, U, F>(f);
    piped_steps_follow(m, diff.steps(), p);
    assert(out =~= crate::delta::piped(m, p));
    crate::delta::piped(replay(m, diff.steps()), p)
}

/// As [`mapped_values`], where the function makes nothing of some rows: these are left out.
pub proof fn filter_mapped_values<K: CellValue, V: CellValue, U: CellValue, F: RowFn<K, V, Option<U>>>(
    f: F,
    m: Map<K::Model, V::Model>,
    out: Map<K::Model, U::Model>,
    diff: MapDiff<K, V>,
    told: Option<MapDiff<K, U>>,
) -> (after: Map<K::Model, U::Model>)
    requires
        becomes(&diff, filtering::<K, V, U, F>(f), told),
        fits_all(m, diff.steps()),
        forall|k: K::Model| #[trigger]
            out.contains_key(k) == (m.contains_key(k) && f.image(k, m[k]) is Some),
        forall|k: K::Model| #[trigger] out.contains_key(k) ==> Some(out[k]) == f.image(k, m[k]),
    ensures
        told matches Some(d) ==> fits_all(out, d.steps()) && after == replay(out, d.steps()),
        told is None ==> after == out,
        forall|k: K::Model| #[trigger]
            after.contains_key(k) == (replay(m, diff.steps()).contains_key(k) && f.image(
                k,
                replay(m, diff.steps())[k],
            ) is Some),
        forall|k: K::Model| #[trigger]
            after.contains_key(k) ==> Some(after[k]) == f.image(k, replay(m, diff.steps())[k]),
{
    let p = filtering::<K, V, U, F>(f);
    piped_steps_follow(m, diff.steps(), p);
    assert(out =~= crate::delta::piped(m, p));
    crate::delta::piped(replay(m, diff.steps()), p)
}

/// What is told of a row that changes its value: nothing where it is mapped to what it was mapped to, and
/// one update from the one to the other else.
pub proof fn value_that_maps_the_same<K: CellValue, V: CellValue, U: CellValue, F: RowFn<K, V, U>>(
    f: F,
    key: K::Model,
    old_value: V::Model,
    new_value: V::Model,
)
    ensures
        f.image(key, old_value) == f.image(key, new_value) ==> piped_change(
            Change::Update { key, old_value, new_value },
            mapping::<K, V, U, F>(f),
        ).len() == 0,
        f.image(key, old_value) != f.image(key, new_value) ==> piped_change(
            Change::Update { key, old_value, new_value },
            mapping::<K, V, U, F>(f),
        ) == seq![
            Change::Update {
                key,
                old_value: f.image(key, old_value),
                new_value: f.image(key, new_value),
            },
        ],
{
}

} // verus!
