//! What the terms that rows and changes are spoken of in mean, key by key and place by place.
use vstd::prelude::*;

use crate::delta::{commit_change, delta, differing, piped, put, put_all, put_all_lookup};
use crate::diff::{
    apply_change, change_key, entries_map, fits, fits_all, replay, saturated, steps_of, work_of,
    Change, DiffTree, MapDiff,
};
use crate::fx::lookup;
use crate::index::entry_keys;
use crate::value::{models, CellValue};

verus! {

/// What a map holds at a key is the value that it has there, and nothing where it has none.
pub proof fn held_at_a_key<K, V>(m: Map<K, V>, key: K)
    ensures
        m.contains_key(key) ==> lookup(m, key) == Some(m[key]),
        !m.contains_key(key) ==> lookup(m, key) is None,
{
}

/// The models of values, one for each value, in the same places.
pub proof fn models_in_place<T: CellValue>(values: Seq<T>)
    ensures
        models(values).len() == values.len(),
        forall|i: int| 0 <= i < values.len() ==> #[trigger] models(values)[i] == values[i].model(),
{
}

/// The keys of entries, one for each entry, in the same places.
pub proof fn keys_in_place<K, V>(entries: Seq<(K, V)>)
    ensures
        entry_keys(entries).len() == entries.len(),
        forall|i: int| 0 <= i < entries.len() ==> #[trigger] entry_keys(entries)[i] == entries[i].0,
{
}

/// Entries make a map that has just the keys of the entries, each with the value of the last entry
/// that has the key.
pub proof fn last_entry_stays<K, V>(entries: Seq<(K, V)>)
    ensures
        forall|k: K| #[trigger]
            entries_map(entries).contains_key(k) <==> exists|i: int|
                0 <= i < entries.len() && (#[trigger] entries[i]).0 == k,
        forall|i: int|
            0 <= i < entries.len() && (forall|j: int|
                i < j < entries.len() ==> (#[trigger] entries[j]).0 != entries[i].0)
                ==> entries_map(entries)[(#[trigger] entries[i]).0] == entries[i].1,
    decreases entries.len(),
{
    if entries.len() > 0 {
        let rest = entries.drop_last();
        let n = entries.len() - 1;
        last_entry_stays(rest);
        assert forall|k: K| #[trigger]
            entries_map(entries).contains_key(k) <==> exists|i: int|
                0 <= i < entries.len() && (#[trigger] entries[i]).0 == k by {
            if entries_map(rest).contains_key(k) {
                let i = choose|i: int| 0 <= i < rest.len() && (#[trigger] rest[i]).0 == k;
                assert(entries[i].0 == k);
            }
            if k == entries.last().0 {
                assert(entries[n].0 == k);
            }
            if exists|i: int| 0 <= i < entries.len() && (#[trigger] entries[i]).0 == k {
                let i = choose|i: int| 0 <= i < entries.len() && (#[trigger] entries[i]).0 == k;
                if i < n {
                    assert(rest[i].0 == k);
                    assert(entries_map(rest).contains_key(k));
                }
            }
        }
        assert forall|i: int|
            0 <= i < entries.len() && (forall|j: int|
                i < j < entries.len() ==> (#[trigger] entries[j]).0 != entries[i].0) implies entries_map(
            entries,
        )[(#[trigger] entries[i]).0] == entries[i].1 by {
            if i < n {
                assert(entries[n].0 != entries[i].0);
                assert(rest[i] == entries[i]);
                assert forall|j: int| i < j < rest.len() implies (#[trigger] rest[j]).0
                    != rest[i].0 by {
                    assert(rest[j] == entries[j]);
                }
            }
        }
    }
}

/// What one change makes of a map, key by key: a new beginning leaves what its entries make, an insert
/// or an update sets its key to its new value, a remove takes its key away, and no other key changes.
pub proof fn one_change<K, V>(m: Map<K, V>, change: Change<K, V>, k: K)
    ensures
        match change {
            Change::Initial { entries } => apply_change(m, change) == entries_map(entries),
            Change::Insert { key, value } => {
                &&& apply_change(m, change).contains_key(k) == (k == key || m.contains_key(k))
                &&& apply_change(m, change)[key] == value
                &&& k != key ==> apply_change(m, change)[k] == m[k]
            },
            Change::Remove { key, old_value } => {
                &&& apply_change(m, change).contains_key(k) == (k != key && m.contains_key(k))
                &&& k != key ==> apply_change(m, change)[k] == m[k]
            },
            Change::Update { key, old_value, new_value } => {
                &&& apply_change(m, change).contains_key(k) == (k == key || m.contains_key(k))
                &&& apply_change(m, change)[key] == new_value
                &&& k != key ==> apply_change(m, change)[k] == m[k]
            },
        },
{
}

/// Changes work in order: none of them leaves the map, and each works on what those before it made.
pub proof fn changes_in_order<K, V>(m: Map<K, V>, steps: Seq<Change<K, V>>, i: int)
    requires
        0 <= i < steps.len(),
    ensures
        replay(m, steps.take(0)) == m,
        replay(m, steps.take(i + 1)) == apply_change(replay(m, steps.take(i)), steps[i]),
        replay(m, steps.take(steps.len() as int)) == replay(m, steps),
{
    assert(steps.take(i + 1).drop_last() =~= steps.take(i));
    assert(steps.take(i + 1).last() == steps[i]);
    assert(steps.take(steps.len() as int) =~= steps);
}

/// What it is for a change to tell the truth about a map: what it inserts was not there, what it
/// removes or replaces was there with the old value, and a new beginning names no key twice.
pub proof fn truthful_change<K, V>(m: Map<K, V>, change: Change<K, V>)
    ensures
        fits(m, change) == (match change {
            Change::Initial { entries } => forall|i: int, j: int|
                0 <= i < j < entries.len() ==> (#[trigger] entries[i]).0 != (
                #[trigger] entries[j]).0,
            Change::Insert { key, value } => !m.contains_key(key),
            Change::Remove { key, old_value } => m.contains_key(key) && m[key] == old_value,
            Change::Update { key, old_value, new_value } => m.contains_key(key) && m[key]
                == old_value,
        }),
{
    match change {
        Change::Initial { entries } => {
            let keys = entries.map_values(|e: (K, V)| e.0);
            if fits(m, change) {
                assert forall|i: int, j: int| 0 <= i < j < entries.len() implies (
                #[trigger] entries[i]).0 != (#[trigger] entries[j]).0 by {
                    assert(keys[i] == entries[i].0 && keys[j] == entries[j].0);
                }
            } else {
                let (i, j) = choose|i: int, j: int|
                    0 <= i < keys.len() && 0 <= j < keys.len() && i != j && keys[i] == keys[j];
                assert(entries[i].0 == keys[i] && entries[j].0 == keys[j]);
                if i < j {
                    assert(entries[i].0 == entries[j].0);
                } else {
                    assert(entries[j].0 == entries[i].0);
                }
            }
        },
        _ => {},
    }
}

proof fn truthful_upto<K, V>(m: Map<K, V>, steps: Seq<Change<K, V>>, n: int)
    requires
        0 <= n <= steps.len(),
    ensures
        fits_all(m, steps.take(n)) == (forall|i: int|
            0 <= i < n ==> fits(replay(m, steps.take(i)), #[trigger] steps[i])),
    decreases n,
{
    if n > 0 {
        truthful_upto(m, steps, n - 1);
        assert(steps.take(n).drop_last() =~= steps.take(n - 1));
        assert(steps.take(n).last() == steps[n - 1]);
    }
}

/// Changes tell the truth where each of them does, about what those before it made.
pub proof fn truthful_changes<K, V>(m: Map<K, V>, steps: Seq<Change<K, V>>)
    ensures
        fits_all(m, steps) == (forall|i: int|
            0 <= i < steps.len() ==> fits(replay(m, steps.take(i)), #[trigger] steps[i])),
{
    truthful_upto(m, steps, steps.len() as int);
    assert(steps.take(steps.len() as int) =~= steps);
}

/// A diff that is no batch stands for one change, the one that it names; a batch stands for the changes
/// of its members, one member after the other.
pub proof fn what_a_diff_says<K: CellValue, V: CellValue>(diff: MapDiff<K, V>, i: int)
    ensures
        match diff {
            MapDiff::Initial { entries } => diff.steps() == seq![
                Change::<K::Model, V::Model>::Initial {
                    entries: Seq::new(
                        entries@.len(),
                        |n: int| (entries@[n].0.model(), entries@[n].1.model()),
                    ),
                },
            ],
            MapDiff::Insert { key, value } => diff.steps() == seq![
                Change::<K::Model, V::Model>::Insert { key: key.model(), value: value.model() },
            ],
            MapDiff::Remove { key, old_value } => diff.steps() == seq![
                Change::<K::Model, V::Model>::Remove {
                    key: key.model(),
                    old_value: old_value.model(),
                },
            ],
            MapDiff::Update { key, old_value, new_value } => diff.steps() == seq![
                Change::<K::Model, V::Model>::Update {
                    key: key.model(),
                    old_value: old_value.model(),
                    new_value: new_value.model(),
                },
            ],
            MapDiff::Batch { changes } => {
                &&& diff.steps() == steps_of(changes@)
                &&& steps_of(changes@.take(0)).len() == 0
                &&& 0 <= i < changes@.len() ==> steps_of(changes@.take(i + 1)) == steps_of(
                    changes@.take(i),
                ) + changes@[i].steps()
            },
        },
{
    match diff {
        MapDiff::Initial { entries } => {
            assert(models(entries@) =~= Seq::new(
                entries@.len(),
                |n: int| (entries@[n].0.model(), entries@[n].1.model()),
            ));
        },
        MapDiff::Batch { changes } => {
            if 0 <= i < changes@.len() {
                assert(changes@.take(i + 1).drop_last() =~= changes@.take(i));
                assert(changes@.take(i + 1).last() == changes@[i]);
            }
        },
        _ => {},
    }
}

/// The work of changes: a new beginning counts its entries, every other change counts one.
pub proof fn work_adds_up<K, V>(steps: Seq<Change<K, V>>, i: int)
    requires
        0 <= i < steps.len(),
    ensures
        work_of(steps.take(0)) == 0,
        steps[i] is Initial ==> work_of(steps.take(i + 1)) == work_of(steps.take(i))
            + steps[i]->entries.len(),
        !(steps[i] is Initial) ==> work_of(steps.take(i + 1)) == work_of(steps.take(i)) + 1,
{
    assert(steps.take(i + 1).drop_last() =~= steps.take(i));
    assert(steps.take(i + 1).last() == steps[i]);
}

/// A number that the machine has stays as it is, and one that it does not have becomes the largest that
/// it has.
pub proof fn cut_to_the_machine(n: nat)
    ensures
        n <= usize::MAX ==> saturated(n) as nat == n,
        n > usize::MAX ==> saturated(n) == usize::MAX,
{
}

/// Each change of a row names the key of the row, and a new beginning names none.
pub proof fn key_of_a_change<K, V>(change: Change<K, V>)
    ensures
        change is Initial ==> change_key(change) is None,
        change is Insert ==> change_key(change) == Some(change->Insert_key),
        change is Remove ==> change_key(change) == Some(change->Remove_key),
        change is Update ==> change_key(change) == Some(change->Update_key),
{
}

/// Setting a key to a value, or to nothing, changes that key alone.
pub proof fn one_key_set<K, V>(m: Map<K, V>, key: K, value: Option<V>, k: K)
    ensures
        value is Some ==> put(m, key, value).contains_key(key) && put(m, key, value)[key]
            == value->Some_0,
        value is None ==> !put(m, key, value).contains_key(key),
        k != key ==> put(m, key, value).contains_key(k) == m.contains_key(k),
        k != key && m.contains_key(k) ==> put(m, key, value)[k] == m[k],
{
}

/// Setting keys to what another map holds there sets these keys alone.
pub proof fn keys_set<K, V>(m: Map<K, V>, keys: Seq<K>, want: Map<K, V>, k: K)
    ensures
        keys.contains(k) ==> put_all(m, keys, want).contains_key(k) == want.contains_key(k),
        keys.contains(k) && want.contains_key(k) ==> put_all(m, keys, want)[k] == want[k],
        !keys.contains(k) ==> put_all(m, keys, want).contains_key(k) == m.contains_key(k),
        !keys.contains(k) && m.contains_key(k) ==> put_all(m, keys, want)[k] == m[k],
{
    put_all_lookup(m, keys, want);
    let _ = lookup(put_all(m, keys, want), k);
    let _ = lookup(m, k);
    let _ = lookup(want, k);
}

/// What is told of a key that comes to hold something else: nothing where it holds the same, and else
/// one change, an insert of what came, a remove of what went, or an update from the one to the other.
pub proof fn told_of_a_key<K, V>(key: K, before: Option<V>, after: Option<V>)
    ensures
        before == after ==> commit_change(key, before, after).len() == 0,
        before is None && after is Some ==> commit_change(key, before, after) == seq![
            Change::Insert { key, value: after->Some_0 },
        ],
        before is Some && after is None ==> commit_change(key, before, after) == seq![
            Change::<K, V>::Remove { key, old_value: before->Some_0 },
        ],
        before is Some && after is Some && before != after ==> commit_change(key, before, after)
            == seq![
            Change::Update { key, old_value: before->Some_0, new_value: after->Some_0 },
        ],
{
}

/// What is told of keys in turn is what is told of each, from what the keys before it left.
pub proof fn told_of_keys<K, V>(m: Map<K, V>, keys: Seq<K>, want: Map<K, V>, i: int)
    requires
        0 <= i < keys.len(),
    ensures
        delta(m, keys.take(0), want).len() == 0,
        delta(m, keys.take(i + 1), want) == delta(m, keys.take(i), want) + commit_change(
            keys[i],
            if keys.take(i).contains(keys[i]) {
                lookup(want, keys[i])
            } else {
                lookup(m, keys[i])
            },
            lookup(want, keys[i]),
        ),
        delta(m, keys.take(keys.len() as int), want) == delta(m, keys, want),
{
    assert(keys.take(i + 1).drop_last() =~= keys.take(i));
    assert(keys.take(i + 1).last() == keys[i]);
    assert(keys.take(keys.len() as int) =~= keys);
    put_all_lookup(m, keys.take(i), want);
}

/// Two maps differ at a key where one has a row that the other has not, or both have different ones.
pub proof fn where_maps_differ<K, V>(a: Map<K, V>, b: Map<K, V>, k: K)
    ensures
        differing(a, b).contains(k) == (a.contains_key(k) != b.contains_key(k) || (a.contains_key(k)
            && b.contains_key(k) && a[k] != b[k])),
{
}

/// Sending rows through a function keeps just the rows that it gives something for, under their keys,
/// with what it gives.
pub proof fn rows_sent_through<K, V, O>(rows: Map<K, V>, f: spec_fn(K, V) -> Option<O>, k: K)
    ensures
        piped(rows, f).contains_key(k) == (rows.contains_key(k) && f(k, rows[k]) is Some),
        piped(rows, f).contains_key(k) ==> Some(piped(rows, f)[k]) == f(k, rows[k]),
{
}

/// The shape of a diff: one change by itself, or a batch with one member for each of its members, in the
/// same places.
pub proof fn shape_of_a_diff<K: CellValue, V: CellValue>(diff: MapDiff<K, V>)
    ensures
        !(diff is Batch) ==> diff.tree() == DiffTree::Leaf(diff.atom()) && diff.steps() == seq![
            diff.atom(),
        ],
        diff matches MapDiff::Batch { changes } ==> diff.tree() is Batch && diff.tree()->Batch_0.len()
            == changes@.len() && forall|i: int|
            0 <= i < changes@.len() ==> #[trigger] diff.tree()->Batch_0[i] == changes@[i].tree(),
{
    if let MapDiff::Batch { changes } = diff {
        trees_in_place(changes@);
    }
}

proof fn trees_in_place<K: CellValue, V: CellValue>(diffs: Seq<MapDiff<K, V>>)
    ensures
        MapDiff::<K, V>::trees(diffs).len() == diffs.len(),
        forall|i: int|
            0 <= i < diffs.len() ==> #[trigger] MapDiff::<K, V>::trees(diffs)[i] == diffs[i].tree(),
    decreases diffs.len(),
{
    if diffs.len() > 0 {
        trees_in_place(diffs.drop_last());
    }
}

} // verus!
