//! Changes of rows that keep their keys.
//!
//! A diff holds the old and the new row values, so that a projection that keeps the keys needs no
//! rows of its own.
use vstd::prelude::*;

use crate::delta::{lookup_ext, piped, piped_lookup};
use crate::diff::{
    apply_change, entries_map, fits, fits_all, replay, replay_concat, replay_push, steps_of,
    steps_of_push, trees_push, Change, DiffTree, MapDiff,
};
use crate::func::{call2, image2, pure2, RowFn};
use crate::fx::lookup;
use crate::index::entry_keys;
use crate::join_runtime::rows::entries_map_keys;
use crate::value::{models, models_push, CellValue, MapKey};

verus! {

/// The entries that a function of rows keeps, with what it makes of them.
pub open spec fn piped_entries<K, V, U>(
    entries: Seq<(K, V)>,
    f: spec_fn(K, V) -> Option<U>,
) -> Seq<(K, U)>
    decreases entries.len(),
{
    if entries.len() == 0 {
        Seq::empty()
    } else {
        let (k, v) = entries.last();
        let rest = piped_entries(entries.drop_last(), f);
        match f(k, v) {
            Some(u) => rest.push((k, u)),
            None => rest,
        }
    }
}

/// The change, if any, that a change of a row becomes. A row that a function starts to keep is
/// inserted, one that it stops to keep is removed, and one that it keeps as it was does not change.
pub open spec fn piped_change<K, V, U>(
    change: Change<K, V>,
    f: spec_fn(K, V) -> Option<U>,
) -> Seq<Change<K, U>> {
    match change {
        Change::Initial { entries } => seq![
            Change::Initial { entries: piped_entries(entries, f) },
        ],
        Change::Insert { key, value } => match f(key, value) {
            Some(u) => seq![Change::Insert { key, value: u }],
            None => Seq::empty(),
        },
        Change::Remove { key, old_value } => match f(key, old_value) {
            Some(u) => seq![Change::Remove { key, old_value: u }],
            None => Seq::empty(),
        },
        Change::Update { key, old_value, new_value } => match (f(key, old_value), f(key, new_value)) {
            (Some(a), Some(b)) => if a != b {
                seq![Change::Update { key, old_value: a, new_value: b }]
            } else {
                Seq::empty()
            },
            (Some(a), None) => seq![Change::Remove { key, old_value: a }],
            (None, Some(b)) => seq![Change::Insert { key, value: b }],
            (None, None) => Seq::empty(),
        },
    }
}

/// The changes that changes of rows become.
pub open spec fn piped_steps<K, V, U>(
    steps: Seq<Change<K, V>>,
    f: spec_fn(K, V) -> Option<U>,
) -> Seq<Change<K, U>>
    decreases steps.len(),
{
    if steps.len() == 0 {
        Seq::empty()
    } else {
        piped_steps(steps.drop_last(), f) + piped_change(steps.last(), f)
    }
}

pub proof fn piped_steps_concat<K, V, U>(
    a: Seq<Change<K, V>>,
    b: Seq<Change<K, V>>,
    f: spec_fn(K, V) -> Option<U>,
)
    ensures
        piped_steps(a + b, f) == piped_steps(a, f) + piped_steps(b, f),
    decreases b.len(),
{
    if b.len() == 0 {
        assert(a + b =~= a);
        assert(piped_steps(a, f) + piped_steps(b, f) =~= piped_steps(a, f));
    } else {
        assert((a + b).drop_last() =~= a + b.drop_last());
        piped_steps_concat(a, b.drop_last(), f);
        assert(piped_steps(a + b, f) =~= piped_steps(a, f) + piped_steps(b, f));
    }
}

/// The function of rows that maps every value.
pub open spec fn mapping<K: CellValue, V: CellValue, U: CellValue, F: RowFn<K, V, U>>(
    f: F,
) -> spec_fn(K::Model, V::Model) -> Option<U::Model> {
    |k: K::Model, v: V::Model| Some(image2::<K, V, U, F>(f, k, v))
}

/// The function of rows that maps some values and drops the others.
pub open spec fn filtering<K: CellValue, V: CellValue, U: CellValue, F: RowFn<K, V, Option<U>>>(
    f: F,
) -> spec_fn(K::Model, V::Model) -> Option<U::Model> {
    |k: K::Model, v: V::Model| image2::<K, V, Option<U>, F>(f, k, v)
}

/// The diff that a diff becomes, or none where nothing changes. A batch becomes the batch of what its
/// members become, in order, without those that become nothing.
pub open spec fn piped_tree<K, V, U>(
    tree: DiffTree<K, V>,
    f: spec_fn(K, V) -> Option<U>,
) -> Option<DiffTree<K, U>>
    decreases tree,
{
    match tree {
        DiffTree::Leaf(change) => {
            let told = piped_change(change, f);
            if told.len() > 0 {
                Some(DiffTree::Leaf(told[0]))
            } else {
                None
            }
        },
        DiffTree::Batch(members) => {
            let told = piped_trees(members, f);
            if told.len() > 0 {
                Some(DiffTree::Batch(told))
            } else {
                None
            }
        },
    }
}

/// What several diffs become, in order, without those that become nothing.
pub open spec fn piped_trees<K, V, U>(
    trees: Seq<DiffTree<K, V>>,
    f: spec_fn(K, V) -> Option<U>,
) -> Seq<DiffTree<K, U>>
    decreases trees,
{
    if trees.len() == 0 {
        Seq::empty()
    } else {
        let rest = piped_trees(trees.drop_last(), f);
        match piped_tree(trees.last(), f) {
            Some(told) => rest.push(told),
            None => rest,
        }
    }
}

/// Mapping every value is mapping some values, with a function that keeps them all.
pub proof fn mapping_is_filtering<
    K: CellValue,
    V: CellValue,
    U: CellValue,
    F: RowFn<K, V, U>,
    G: RowFn<K, V, Option<U>>,
>(f: F, g: G, tree: DiffTree<K::Model, V::Model>)
    requires
        forall|k: K::Model, v: V::Model|
            #[trigger] image2::<K, V, Option<U>, G>(g, k, v) == Some(image2::<K, V, U, F>(f, k, v)),
    ensures
        piped_tree(tree, mapping::<K, V, U, F>(f)) == piped_tree(tree, filtering::<K, V, U, G>(g)),
{
    assert(mapping::<K, V, U, F>(f) =~= filtering::<K, V, U, G>(g));
}

/// The diff that a diff becomes, or none where nothing changes. Batches stay nested as they are.
pub open spec fn becomes<K: CellValue, V: CellValue, U: CellValue>(
    diff: &MapDiff<K, V>,
    f: spec_fn(K::Model, V::Model) -> Option<U::Model>,
    mapped: Option<MapDiff<K, U>>,
) -> bool {
    match mapped {
        Some(out) => Some(out.tree()) == piped_tree(diff.tree(), f) && out.steps() == piped_steps(
            diff.steps(),
            f,
        ) && (out is Batch == diff is Batch) && out.steps().len() > 0,
        None => piped_tree(diff.tree(), f) is None && piped_steps(diff.steps(), f).len() == 0,
    }
}

proof fn leaf_becomes<K: CellValue, V: CellValue, U: CellValue>(
    diff: &MapDiff<K, V>,
    f: spec_fn(K::Model, V::Model) -> Option<U::Model>,
)
    requires
        !(diff is Batch),
    ensures
        piped_steps(diff.steps(), f) == piped_change(diff.atom(), f),
{
    let steps = diff.steps();
    assert(steps.drop_last() =~= Seq::empty());
    assert(piped_steps(steps.drop_last(), f) =~= Seq::<Change<K::Model, U::Model>>::empty());
    assert(piped_steps(steps, f) =~= piped_change(diff.atom(), f));
}

/// Maps the values of a diff.
pub fn map_diff<K: MapKey, V: CellValue, U: CellValue, F: RowFn<K, V, U>>(
    diff: &MapDiff<K, V>,
    f: &F,
) -> (mapped: Option<MapDiff<K, U>>)
    requires
        pure2::<K, V, U, F>(*f),
    ensures
        becomes(diff, mapping::<K, V, U, F>(*f), mapped),
    decreases diff,
{
    let ghost g = mapping::<K, V, U, F>(*f);
    match diff {
        MapDiff::Initial { entries } => {
            proof {
                leaf_becomes::<K, V, U>(diff, g);
            }
            let ghost all = models(entries@);
            let mut mapped: Vec<(K, U)> = Vec::new();
            let mut i: usize = 0;
            assert(models(mapped@) =~= piped_entries(all.take(0), g));
            while i < entries.len()
                invariant
                    i <= entries@.len(),
                    all == models(entries@),
                    pure2::<K, V, U, F>(*f),
                    g == mapping::<K, V, U, F>(*f),
                    models(mapped@) == piped_entries(all.take(i as int), g),
                decreases entries@.len() - i,
            {
                let (key, value) = &entries[i];
                let entry = (key.clone_value(), call2(f, key, value));
                proof {
                    assert(all.take(i + 1).drop_last() =~= all.take(i as int));
                    assert(all.take(i + 1).last() == (key.model(), value.model()));
                    models_push(mapped@, entry);
                }
                mapped.push(entry);
                i += 1;
            }
            assert(all.take(i as int) =~= all);
            let out = MapDiff::Initial { entries: mapped };
            assert(out.steps() =~= piped_change(diff.atom(), g));
            Some(out)
        },
        MapDiff::Insert { key, value } => {
            let out = MapDiff::Insert { key: key.clone_value(), value: call2(f, key, value) };
            proof {
                leaf_becomes::<K, V, U>(diff, g);
                assert(out.steps() =~= piped_change(diff.atom(), g));
            }
            Some(out)
        },
        MapDiff::Remove { key, old_value } => {
            let out = MapDiff::Remove {
                key: key.clone_value(),
                old_value: call2(f, key, old_value),
            };
            proof {
                leaf_becomes::<K, V, U>(diff, g);
                assert(out.steps() =~= piped_change(diff.atom(), g));
            }
            Some(out)
        },
        MapDiff::Update { key, old_value, new_value } => {
            let old_mapped = call2(f, key, old_value);
            let new_mapped = call2(f, key, new_value);
            proof {
                leaf_becomes::<K, V, U>(diff, g);
            }
            if old_mapped.equals(&new_mapped) {
                None
            } else {
                let out = MapDiff::Update {
                    key: key.clone_value(),
                    old_value: old_mapped,
                    new_value: new_mapped,
                };
                assert(out.steps() =~= piped_change(diff.atom(), g));
                Some(out)
            }
        },
        MapDiff::Batch { changes } => {
            let mut mapped: Vec<MapDiff<K, U>> = Vec::new();
            let mut i: usize = 0;
            proof {
                assert(changes@.take(0) =~= Seq::empty());
                assert(steps_of(mapped@) =~= piped_steps(steps_of(changes@.take(0)), g));
            }
            while i < changes.len()
                invariant
                    i <= changes@.len(),
                    *diff matches MapDiff::Batch { changes: c } && c == *changes,
                    pure2::<K, V, U, F>(*f),
                    g == mapping::<K, V, U, F>(*f),
                    steps_of(mapped@) == piped_steps(steps_of(changes@.take(i as int)), g),
                    mapped@.len() == 0 <==> steps_of(mapped@).len() == 0,
                    MapDiff::<K, U>::trees(mapped@) == piped_trees(
                        MapDiff::<K, V>::trees(changes@.take(i as int)),
                        g,
                    ),
                    MapDiff::<K, U>::trees(mapped@).len() == mapped@.len(),
                decreases changes@.len() - i,
            {
                proof {
                    steps_of_push(changes@.take(i as int), changes@[i as int]);
                    assert(changes@.take(i as int).push(changes@[i as int]) =~= changes@.take(i + 1));
                    trees_push(changes@.take(i as int), changes@[i as int]);
                    let done = MapDiff::<K, V>::trees(changes@.take(i + 1));
                    assert(done.drop_last() =~= MapDiff::<K, V>::trees(changes@.take(i as int)));
                    piped_steps_concat(
                        steps_of(changes@.take(i as int)),
                        changes@[i as int].steps(),
                        g,
                    );
                }
                match map_diff(&changes[i], f) {
                    Some(out) => {
                        proof {
                            steps_of_push(mapped@, out);
                            trees_push(mapped@, out);
                        }
                        mapped.push(out);
                    },
                    None => {
                        assert(steps_of(mapped@) + Seq::empty() =~= steps_of(mapped@));
                        assert(piped_steps(changes@[i as int].steps(), g) =~= Seq::empty());
                    },
                }
                i += 1;
            }
            assert(changes@.take(i as int) =~= changes@);
            if mapped.len() > 0 {
                Some(MapDiff::Batch { changes: mapped })
            } else {
                None
            }
        },
    }
}

/// Maps some values of a diff and drops the others.
pub fn filter_map_diff<K: MapKey, V: CellValue, U: CellValue, F: RowFn<K, V, Option<U>>>(
    diff: &MapDiff<K, V>,
    f: &F,
) -> (mapped: Option<MapDiff<K, U>>)
    requires
        pure2::<K, V, Option<U>, F>(*f),
    ensures
        becomes(diff, filtering::<K, V, U, F>(*f), mapped),
    decreases diff,
{
    let ghost g = filtering::<K, V, U, F>(*f);
    match diff {
        MapDiff::Initial { entries } => {
            proof {
                leaf_becomes::<K, V, U>(diff, g);
            }
            let ghost all = models(entries@);
            let mut mapped: Vec<(K, U)> = Vec::new();
            let mut i: usize = 0;
            assert(models(mapped@) =~= piped_entries(all.take(0), g));
            while i < entries.len()
                invariant
                    i <= entries@.len(),
                    all == models(entries@),
                    pure2::<K, V, Option<U>, F>(*f),
                    g == filtering::<K, V, U, F>(*f),
                    models(mapped@) == piped_entries(all.take(i as int), g),
                decreases entries@.len() - i,
            {
                let (key, value) = &entries[i];
                proof {
                    assert(all.take(i + 1).drop_last() =~= all.take(i as int));
                    assert(all.take(i + 1).last() == (key.model(), value.model()));
                }
                match call2(f, key, value) {
                    Some(kept_value) => {
                        let entry = (key.clone_value(), kept_value);
                        proof {
                            models_push(mapped@, entry);
                        }
                        mapped.push(entry);
                    },
                    None => {},
                }
                i += 1;
            }
            assert(all.take(i as int) =~= all);
            let out = MapDiff::Initial { entries: mapped };
            assert(out.steps() =~= piped_change(diff.atom(), g));
            Some(out)
        },
        MapDiff::Insert { key, value } => {
            proof {
                leaf_becomes::<K, V, U>(diff, g);
            }
            match call2(f, key, value) {
                Some(value) => {
                    let out = MapDiff::Insert { key: key.clone_value(), value };
                    assert(out.steps() =~= piped_change(diff.atom(), g));
                    Some(out)
                },
                None => None,
            }
        },
        MapDiff::Remove { key, old_value } => {
            proof {
                leaf_becomes::<K, V, U>(diff, g);
            }
            match call2(f, key, old_value) {
                Some(old_value) => {
                    let out = MapDiff::Remove { key: key.clone_value(), old_value };
                    assert(out.steps() =~= piped_change(diff.atom(), g));
                    Some(out)
                },
                None => None,
            }
        },
        MapDiff::Update { key, old_value, new_value } => {
            proof {
                leaf_becomes::<K, V, U>(diff, g);
            }
            match (call2(f, key, old_value), call2(f, key, new_value)) {
                (Some(old_kept), Some(new_kept)) => if old_kept.equals(&new_kept) {
                    None
                } else {
                    let out = MapDiff::Update {
                        key: key.clone_value(),
                        old_value: old_kept,
                        new_value: new_kept,
                    };
                    assert(out.steps() =~= piped_change(diff.atom(), g));
                    Some(out)
                },
                (Some(old_kept), None) => {
                    let out = MapDiff::Remove { key: key.clone_value(), old_value: old_kept };
                    assert(out.steps() =~= piped_change(diff.atom(), g));
                    Some(out)
                },
                (None, Some(new_kept)) => {
                    let out = MapDiff::Insert { key: key.clone_value(), value: new_kept };
                    assert(out.steps() =~= piped_change(diff.atom(), g));
                    Some(out)
                },
                (None, None) => None,
            }
        },
        MapDiff::Batch { changes } => {
            let mut mapped: Vec<MapDiff<K, U>> = Vec::new();
            let mut i: usize = 0;
            proof {
                assert(changes@.take(0) =~= Seq::empty());
                assert(steps_of(mapped@) =~= piped_steps(steps_of(changes@.take(0)), g));
            }
            while i < changes.len()
                invariant
                    i <= changes@.len(),
                    *diff matches MapDiff::Batch { changes: c } && c == *changes,
                    pure2::<K, V, Option<U>, F>(*f),
                    g == filtering::<K, V, U, F>(*f),
                    steps_of(mapped@) == piped_steps(steps_of(changes@.take(i as int)), g),
                    mapped@.len() == 0 <==> steps_of(mapped@).len() == 0,
                    MapDiff::<K, U>::trees(mapped@) == piped_trees(
                        MapDiff::<K, V>::trees(changes@.take(i as int)),
                        g,
                    ),
                    MapDiff::<K, U>::trees(mapped@).len() == mapped@.len(),
                decreases changes@.len() - i,
            {
                proof {
                    steps_of_push(changes@.take(i as int), changes@[i as int]);
                    assert(changes@.take(i as int).push(changes@[i as int]) =~= changes@.take(i + 1));
                    trees_push(changes@.take(i as int), changes@[i as int]);
                    let done = MapDiff::<K, V>::trees(changes@.take(i + 1));
                    assert(done.drop_last() =~= MapDiff::<K, V>::trees(changes@.take(i as int)));
                    piped_steps_concat(
                        steps_of(changes@.take(i as int)),
                        changes@[i as int].steps(),
                        g,
                    );
                }
                match filter_map_diff(&changes[i], f) {
                    Some(out) => {
                        proof {
                            steps_of_push(mapped@, out);
                            trees_push(mapped@, out);
                        }
                        mapped.push(out);
                    },
                    None => {
                        assert(steps_of(mapped@) + Seq::empty() =~= steps_of(mapped@));
                        assert(piped_steps(changes@[i as int].steps(), g) =~= Seq::empty());
                    },
                }
                i += 1;
            }
            assert(changes@.take(i as int) =~= changes@);
            if mapped.len() > 0 {
                Some(MapDiff::Batch { changes: mapped })
            } else {
                None
            }
        },
    }
}

proof fn piped_entries_map<K, V, U>(entries: Seq<(K, V)>, f: spec_fn(K, V) -> Option<U>)
    requires
        entry_keys(entries).no_duplicates(),
    ensures
        entries_map(piped_entries(entries, f)) == piped(entries_map(entries), f),
        entry_keys(piped_entries(entries, f)).no_duplicates(),
        forall|k: K| entry_keys(piped_entries(entries, f)).contains(k) ==> entry_keys(entries).contains(k),
    decreases entries.len(),
{
    if entries.len() > 0 {
        let rest = entries.drop_last();
        let (k, v) = entries.last();
        let old_keys = entry_keys(rest);
        assert(entry_keys(entries) =~= old_keys.push(k));
        assert(old_keys =~= entry_keys(entries).drop_last());
        assert(old_keys.no_duplicates());
        assert(!old_keys.contains(k)) by {
            if old_keys.contains(k) {
                let i = choose|i: int| 0 <= i < old_keys.len() && old_keys[i] == k;
                assert(entry_keys(entries)[i] == entry_keys(entries)[entries.len() - 1]);
            }
        }
        piped_entries_map(rest, f);
        entries_map_keys(rest);
        let p = piped_entries(rest, f);
        let q = piped_entries(entries, f);
        let m = entries_map(rest);
        assert(!m.contains_key(k));
        if f(k, v) is Some {
            assert(q.drop_last() =~= p);
            assert(entry_keys(q) =~= entry_keys(p).push(k));
            assert(!entry_keys(p).contains(k));
        }
        assert forall|x: K| entry_keys(q).contains(x) implies entry_keys(entries).contains(x) by {
            let i = choose|i: int| 0 <= i < entry_keys(q).len() && entry_keys(q)[i] == x;
            if i < entry_keys(p).len() {
                assert(entry_keys(p)[i] == x);
                assert(entry_keys(p).contains(x));
                assert(old_keys.contains(x));
                let n = choose|n: int| 0 <= n < old_keys.len() && old_keys[n] == x;
                assert(entry_keys(entries)[n] == x);
            } else {
                assert(x == k);
                assert(entry_keys(entries)[entries.len() - 1] == k);
            }
        }
        assert forall|x: K| #[trigger] lookup(entries_map(q), x) == lookup(
            piped(entries_map(entries), f),
            x,
        ) by {
            piped_lookup(entries_map(entries), f, x);
            piped_lookup(m, f, x);
            assert(lookup(entries_map(p), x) == lookup(piped(m, f), x));
        }
        lookup_ext(entries_map(q), piped(entries_map(entries), f));
    } else {
        assert(entries_map(piped_entries(entries, f)) =~= piped(entries_map(entries), f));
    }
}

proof fn piped_change_follows<K, V, U>(
    m: Map<K, V>,
    change: Change<K, V>,
    f: spec_fn(K, V) -> Option<U>,
)
    requires
        fits(m, change),
    ensures
        fits_all(piped(m, f), piped_change(change, f)),
        replay(piped(m, f), piped_change(change, f)) == piped(apply_change(m, change), f),
{
    let out = piped(m, f);
    let after = piped(apply_change(m, change), f);
    let told = piped_change(change, f);
    if told.len() > 0 {
        assert(told =~= Seq::empty().push(told[0]));
        replay_push(out, Seq::empty(), told[0]);
    }
    match change {
        Change::Initial { entries } => {
            assert(entries.map_values(|e: (K, V)| e.0) =~= entry_keys(entries));
            piped_entries_map(entries, f);
            assert(piped_entries(entries, f).map_values(|e: (K, U)| e.0) =~= entry_keys(
                piped_entries(entries, f),
            ));
        },
        Change::Insert { key, value } => {
            piped_lookup(m, f, key);
            assert(replay(out, told) =~= after);
        },
        Change::Remove { key, old_value } => {
            piped_lookup(m, f, key);
            assert(replay(out, told) =~= after);
        },
        Change::Update { key, old_value, new_value } => {
            piped_lookup(m, f, key);
            assert(replay(out, told) =~= after);
        },
    }
}

/// A projection that keeps the keys follows its source: where changes tell the truth about a map,
/// what they become tells the truth about the projected map, and leads to the projection of what
/// the changes lead to.
pub proof fn piped_steps_follow<K, V, U>(
    m: Map<K, V>,
    steps: Seq<Change<K, V>>,
    f: spec_fn(K, V) -> Option<U>,
)
    requires
        fits_all(m, steps),
    ensures
        fits_all(piped(m, f), piped_steps(steps, f)),
        replay(piped(m, f), piped_steps(steps, f)) == piped(replay(m, steps), f),
    decreases steps.len(),
{
    if steps.len() > 0 {
        let rest = steps.drop_last();
        piped_steps_follow(m, rest, f);
        piped_change_follows(replay(m, rest), steps.last(), f);
        replay_concat(piped(m, f), piped_steps(rest, f), piped_change(steps.last(), f));
    }
}

/// A projection that maps every value of its source.
pub struct MapValuesRuntime<F> {
    pub f: F,
}

/// A projection that maps some values of its source and drops the others.
pub struct FilterMapValuesRuntime<F> {
    pub f: F,
}

pub fn install_map_values_runtime<K: MapKey, V: CellValue, U: CellValue, F: RowFn<K, V, U>>(
    f: F,
) -> (runtime: MapValuesRuntime<F>)
    requires
        pure2::<K, V, U, F>(f),
    ensures
        runtime.f == f,
{
    MapValuesRuntime { f }
}

pub fn install_filter_map_values_runtime<
    K: MapKey,
    V: CellValue,
    U: CellValue,
    F: RowFn<K, V, Option<U>>,
>(f: F) -> (runtime: FilterMapValuesRuntime<F>)
    requires
        pure2::<K, V, Option<U>, F>(f),
    ensures
        runtime.f == f,
{
    FilterMapValuesRuntime { f }
}

impl<F> MapValuesRuntime<F> {
    /// What a diff of the source becomes.
    pub fn apply<K: MapKey, V: CellValue, U: CellValue>(&self, diff: &MapDiff<K, V>) -> (mapped: Option<
        MapDiff<K, U>,
    >) where F: RowFn<K, V, U>
        requires
            pure2::<K, V, U, F>(self.f),
        ensures
            becomes(diff, mapping::<K, V, U, F>(self.f), mapped),
    {
        map_diff(diff, &self.f)
    }
}

impl<F> FilterMapValuesRuntime<F> {
    /// What a diff of the source becomes.
    pub fn apply<K: MapKey, V: CellValue, U: CellValue>(&self, diff: &MapDiff<K, V>) -> (mapped: Option<
        MapDiff<K, U>,
    >) where F: RowFn<K, V, Option<U>>
        requires
            pure2::<K, V, Option<U>, F>(self.f),
        ensures
            becomes(diff, filtering::<K, V, U, F>(self.f), mapped),
    {
        filter_map_diff(diff, &self.f)
    }
}

} // verus!
