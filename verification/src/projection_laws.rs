//! Projections and their sources: what a projection has told leads to the union of what it makes of the
//! rows of its source, and what goes is told before what comes.
use vstd::prelude::*;

use crate::delta::{commit_change, delta, put_all};
use crate::diff::{entries_map, fits_all, replay, replay_concat, Change};
use crate::func::RowFn;
use crate::fx::lookup;
use crate::index::{entry_keys, rows_of};
use crate::join_runtime::rows::{
    absent_keys, distinct_keys, entries_map_keys, gives, one_giver, stale_keys, OwnedRows,
};
use crate::map_runtime::{
    all_rows, clashes_are_shared_keys, row_computation, rows_distinct, MapRuntime, Projected,
};
use crate::ordered_set::{extend_new_contains, kept_contains};
use crate::value::{CellValue, MapKey};

verus! {

/// What is told of a key that is to hold nothing is that its row goes; what is told of one that is to
/// hold a row is that the row comes, or that another takes its place.
proof fn delta_kinds<K, V>(m: Map<K, V>, keys: Seq<K>, want: Map<K, V>)
    ensures
        (forall|k: K| #[trigger] keys.contains(k) ==> !want.contains_key(k)) ==> forall|i: int|
            0 <= i < delta(m, keys, want).len() ==> #[trigger] delta(m, keys, want)[i] is Remove,
        (forall|k: K| #[trigger] keys.contains(k) ==> want.contains_key(k)) ==> forall|i: int|
            0 <= i < delta(m, keys, want).len() ==> comes(#[trigger] delta(m, keys, want)[i]),
    decreases keys.len(),
{
    if keys.len() > 0 {
        let rest = keys.drop_last();
        let last = keys.last();
        delta_kinds(m, rest, want);
        assert(keys.contains(last));
        assert forall|k: K| #[trigger] rest.contains(k) implies keys.contains(k) by {
            let i = choose|i: int| 0 <= i < rest.len() && rest[i] == k;
            assert(keys[i] == k);
        }
        let c = commit_change(last, lookup(put_all(m, rest, want), last), lookup(want, last));
        assert(delta(m, keys, want) == delta(m, rest, want) + c);
    }
}

/// The change brings a row, or puts another row in its place.
pub open spec fn comes<K, V>(change: Change<K, V>) -> bool {
    match change {
        Change::Insert { key, value } => true,
        Change::Update { key, old_value, new_value } => old_value != new_value,
        _ => false,
    }
}

/// What a projection tells of an event: first, up to `gone`, the rows that go; then the rows that come
/// or change, each to another value than it had.
pub proof fn what_goes_is_told_first<SK, OK, OV>(
    output: Projected<SK, OK, OV>,
    keys: Seq<SK>,
    rows: spec_fn(SK) -> Seq<(OK, OV)>,
) -> (gone: int)
    ensures
        0 <= gone <= output.told(keys, rows).len(),
        forall|i: int| 0 <= i < gone ==> #[trigger] output.told(keys, rows)[i] is Remove,
        forall|i: int|
            gone <= i < output.told(keys, rows).len() ==> comes(#[trigger] output.told(keys, rows)[i]),
{
    let stale = output.stale(keys, rows);
    let given = all_rows(keys, rows);
    let none = Map::<OK, OV>::empty();
    let first = delta(output.cache, stale, none);
    let mid = put_all(output.cache, stale, none);
    let second = delta(mid, entry_keys(given), entries_map(given));
    delta_kinds(output.cache, stale, none);
    entries_map_keys(given);
    delta_kinds(mid, entry_keys(given), entries_map(given));
    assert(output.told(keys, rows) == first + second);
    assert forall|i: int| first.len() <= i < output.told(keys, rows).len() implies comes(
        #[trigger] output.told(keys, rows)[i],
    ) by {
        assert(output.told(keys, rows)[i] == second[i - first.len()]);
    }
    first.len() as int
}

/// A projection has followed its source: it has the rows that the source has led to, it holds exactly the rows that
/// they give, and what it has told, replayed on no rows, leads to its output.
pub open spec fn projection_follows<
    SK: MapKey,
    SV: CellValue,
    OK: MapKey,
    OV: CellValue,
    FO: RowFn<SK, SV, Vec<(OK, OV)>>,
>(
    runtime: MapRuntime<SK, SV, OK, OV, FO>,
    source: Seq<Change<SK::Model, SV::Model>>,
    told: Seq<Change<OK::Model, OV::Model>>,
) -> bool {
    &&& runtime.wf()
    &&& runtime.faithful()
    &&& runtime.source() == rows_of(source)
    &&& fits_all(Map::empty(), told)
    &&& rows_of(told) == runtime.output().cache
}

/// A new projection has followed a source that has told nothing, and has told nothing.
pub proof fn projection_begins<
    SK: MapKey,
    SV: CellValue,
    OK: MapKey,
    OV: CellValue,
    FO: RowFn<SK, SV, Vec<(OK, OV)>>,
>(runtime: MapRuntime<SK, SV, OK, OV, FO>)
    requires
        runtime.wf(),
        runtime.faithful(),
        runtime.source() == Map::<SK::Model, SV::Model>::empty(),
        runtime.output().cache == Map::<OK::Model, OV::Model>::empty(),
    ensures
        projection_follows(runtime, Seq::empty(), Seq::empty()),
{
}

/// A projection meets no collision exactly where the rows that its source comes to give no output key
/// twice; and then it goes on following its source.
pub proof fn projection_goes_on<
    SK: MapKey,
    SV: CellValue,
    OK: MapKey,
    OV: CellValue,
    FO: RowFn<SK, SV, Vec<(OK, OV)>>,
>(
    before: MapRuntime<SK, SV, OK, OV, FO>,
    source: Seq<Change<SK::Model, SV::Model>>,
    told: Seq<Change<OK::Model, OV::Model>>,
    steps: Seq<Change<SK::Model, SV::Model>>,
    after: MapRuntime<SK, SV, OK, OV, FO>,
    more: Seq<Change<OK::Model, OV::Model>>,
)
    requires
        projection_follows(before, source, told),
        after.wf(),
        after.source() == replay(before.source(), steps),
        after.compute() == before.compute(),
        before.clash(steps) is None ==> after.faithful() && fits_all(before.output().cache, more)
            && replay(before.output().cache, more) == after.output().cache,
    ensures
        before.clash(steps) is None <==> rows_distinct(after.rows()) && one_giver(after.rows()),
        before.clash(steps) is None ==> projection_follows(
            after,
            source + steps,
            told + more,
        ),
{
    clashes_are_shared_keys(
        before.output(),
        before.order(),
        before.source(),
        steps,
        row_computation::<SK, SV, OK, OV, FO>(before.compute()),
    );
    replay_concat(Map::empty(), source, steps);
    replay_concat(Map::empty(), told, more);
}

/// What a projection has told, replayed on no rows, is the union of what the rows of its source give:
/// under each output key that a row gives its value, and nothing under a key that none gives.
pub proof fn projection_of_source<
    SK: MapKey,
    SV: CellValue,
    OK: MapKey,
    OV: CellValue,
    FO: RowFn<SK, SV, Vec<(OK, OV)>>,
>(
    runtime: MapRuntime<SK, SV, OK, OV, FO>,
    source: Seq<Change<SK::Model, SV::Model>>,
    told: Seq<Change<OK::Model, OV::Model>>,
)
    requires
        projection_follows(runtime, source, told),
    ensures
        forall|k: SK::Model, o: OK::Model| #[trigger]
            gives(runtime.rows(), k, o) ==> rows_of(source).contains_key(k) && lookup(
                rows_of(told),
                o,
            ) == lookup(
                entries_map(
                    (row_computation::<SK, SV, OK, OV, FO>(runtime.compute()))(k, rows_of(source)[k]),
                ),
                o,
            ),
        forall|o: OK::Model| #[trigger]
            rows_of(told).contains_key(o) ==> exists|k: SK::Model|
                #[trigger] gives(runtime.rows(), k, o),
{
    let rows = runtime.rows();
    let output = runtime.output();
    assert forall|k: SK::Model, o: OK::Model| #[trigger] gives(rows, k, o) implies rows_of(source).contains_key(k)
        && lookup(output.cache, o) == lookup(
        entries_map((row_computation::<SK, SV, OK, OV, FO>(runtime.compute()))(k, rows_of(source)[k])),
        o,
    ) by {
        assert(entry_keys(rows(k)).contains(o) <==> lookup(output.owners, o) == Some(k));
    }
    assert forall|o: OK::Model| #[trigger] output.cache.contains_key(o) implies exists|k: SK::Model|
        #[trigger] gives(rows, k, o) by {
        assert(lookup(output.cache, o) is Some);
        let k = output.owners[o];
        assert(lookup(output.owners, o) == Some(k));
        assert(entry_keys(rows(k)).contains(o) <==> lookup(output.owners, o) == Some(k));
        assert(gives(rows, k, o));
    }
}

/// What a left row of a join tells when it gives other rows: first, up to `gone`, the rows that it gives
/// no longer; then the rows that it gives, each to another value than was there.
pub proof fn what_goes_from_a_left_row_is_told_first<LK, OK, OV>(
    output: OwnedRows<LK, OK, OV>,
    k: LK,
    rows: Seq<(OK, OV)>,
) -> (gone: int)
    ensures
        0 <= gone <= output.told(k, rows).len(),
        forall|i: int| 0 <= i < gone ==> #[trigger] output.told(k, rows)[i] is Remove,
        forall|i: int| gone <= i < output.told(k, rows).len() ==> comes(#[trigger] output.told(k, rows)[i]),
{
    let want = entries_map(rows);
    let stale = stale_keys(output.keys_of(k), rows);
    let given = distinct_keys(rows);
    let first = delta(output.cache, stale, want);
    let second = delta(put_all(output.cache, stale, want), given, want);
    delta_concat(output.cache, stale, given, want);
    kept_contains(output.keys_of(k), absent_keys(rows));
    entries_map_keys(rows);
    extend_new_contains(Seq::<OK>::empty(), entry_keys(rows));
    delta_kinds(output.cache, stale, want);
    delta_kinds(put_all(output.cache, stale, want), given, want);
    assert forall|x: OK| #[trigger] stale.contains(x) implies !want.contains_key(x) by {
        assert(absent_keys(rows).contains(x));
    }
    assert forall|x: OK| #[trigger] given.contains(x) implies want.contains_key(x) by {
        assert(entry_keys(rows).contains(x));
    }
    assert(output.told(k, rows) == first + second);
    assert forall|i: int| 0 <= i < first.len() implies #[trigger] output.told(k, rows)[i] is Remove by {
        assert(output.told(k, rows)[i] == first[i]);
    }
    assert forall|i: int| first.len() <= i < output.told(k, rows).len() implies comes(
        #[trigger] output.told(k, rows)[i],
    ) by {
        assert(output.told(k, rows)[i] == second[i - first.len()]);
    }
    first.len() as int
}

proof fn delta_concat<K, V>(m: Map<K, V>, a: Seq<K>, b: Seq<K>, want: Map<K, V>)
    ensures
        delta(m, a + b, want) == delta(m, a, want) + delta(put_all(m, a, want), b, want),
        put_all(m, a + b, want) == put_all(put_all(m, a, want), b, want),
    decreases b.len(),
{
    if b.len() == 0 {
        assert(a + b =~= a);
        assert(delta(m, a, want) + Seq::<Change<K, V>>::empty() =~= delta(m, a, want));
    } else {
        delta_concat(m, a, b.drop_last(), want);
        assert((a + b).drop_last() =~= a + b.drop_last());
        assert((a + b).last() == b.last());
    }
}

} // verus!
