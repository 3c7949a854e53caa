//! How a kept output map follows a desired one, and the changes that this tells.
use vstd::prelude::*;

use crate::diff::{
    appends, appends_push, appends_steps, fits_all, flat, replay, replay_concat, replay_push,
    steps_of, Change, MapDiff,
};
use crate::fx::{lookup, FxMap};
use crate::ordered_set::kept;
use crate::value::{CellValue, MapKey};

verus! {

/// A map with a key set to a value, or to nothing.
pub open spec fn put<K, V>(m: Map<K, V>, key: K, value: Option<V>) -> Map<K, V> {
    match value {
        Some(v) => m.insert(key, v),
        None => m.remove(key),
    }
}

/// The change, if any, that takes a key from what it held to what it is to hold.
pub open spec fn commit_change<K, V>(key: K, old_value: Option<V>, new_value: Option<V>) -> Seq<
    Change<K, V>,
> {
    match (old_value, new_value) {
        (None, None) => Seq::empty(),
        (None, Some(n)) => seq![Change::Insert { key, value: n }],
        (Some(o), None) => seq![Change::Remove { key, old_value: o }],
        (Some(o), Some(n)) => if o == n {
            Seq::empty()
        } else {
            seq![Change::Update { key, old_value: o, new_value: n }]
        },
    }
}

/// A map with each of several keys set in turn to what `want` holds there.
pub open spec fn put_all<K, V>(m: Map<K, V>, keys: Seq<K>, want: Map<K, V>) -> Map<K, V>
    decreases keys.len(),
{
    if keys.len() == 0 {
        m
    } else {
        put(put_all(m, keys.drop_last(), want), keys.last(), lookup(want, keys.last()))
    }
}

/// The changes that take each of several keys in turn to what `want` holds there.
pub open spec fn delta<K, V>(m: Map<K, V>, keys: Seq<K>, want: Map<K, V>) -> Seq<Change<K, V>>
    decreases keys.len(),
{
    if keys.len() == 0 {
        Seq::empty()
    } else {
        delta(m, keys.drop_last(), want) + commit_change(
            keys.last(),
            lookup(put_all(m, keys.drop_last(), want), keys.last()),
            lookup(want, keys.last()),
        )
    }
}

pub proof fn put_lookup<K, V>(m: Map<K, V>, key: K, value: Option<V>)
    ensures
        forall|k: K| #[trigger]
            lookup(put(m, key, value), k) == if k == key {
                value
            } else {
                lookup(m, k)
            },
{
}

/// Two maps that hold the same at every key are equal.
pub proof fn lookup_ext<K, V>(a: Map<K, V>, b: Map<K, V>)
    requires
        forall|k: K| #[trigger] lookup(a, k) == lookup(b, k),
    ensures
        a == b,
{
    assert forall|k: K| a.contains_key(k) == b.contains_key(k) by {
        assert(lookup(a, k) == lookup(b, k));
    }
    assert forall|k: K| a.contains_key(k) implies a[k] == b[k] by {
        assert(lookup(a, k) == lookup(b, k));
    }
    assert(a =~= b);
}

/// Setting a key to what it holds changes nothing.
pub proof fn put_same<K, V>(m: Map<K, V>, key: K)
    ensures
        put(m, key, lookup(m, key)) == m,
{
    assert(put(m, key, lookup(m, key)) =~= m);
}

/// A change of one row tells the truth and leads where it should.
pub proof fn commit_change_replays<K, V>(m: Map<K, V>, key: K, value: Option<V>)
    ensures
        fits_all(m, commit_change(key, lookup(m, key), value)),
        replay(m, commit_change(key, lookup(m, key), value)) == put(m, key, value),
{
    let s = commit_change(key, lookup(m, key), value);
    put_same(m, key);
    if s.len() > 0 {
        assert(s =~= Seq::empty().push(s[0]));
        replay_push(m, Seq::empty(), s[0]);
    }
}

pub proof fn put_all_lookup<K, V>(m: Map<K, V>, keys: Seq<K>, want: Map<K, V>)
    ensures
        forall|k: K| #[trigger]
            lookup(put_all(m, keys, want), k) == if keys.contains(k) {
                lookup(want, k)
            } else {
                lookup(m, k)
            },
    decreases keys.len(),
{
    if keys.len() > 0 {
        let rest = keys.drop_last();
        put_all_lookup(m, rest, want);
        put_lookup(put_all(m, rest, want), keys.last(), lookup(want, keys.last()));
        assert forall|k: K| #[trigger]
            lookup(put_all(m, keys, want), k) == if keys.contains(k) {
                lookup(want, k)
            } else {
                lookup(m, k)
            } by {
            assert(keys.contains(k) <==> rest.contains(k) || k == keys.last()) by {
                if keys.contains(k) {
                    let i = choose|i: int| 0 <= i < keys.len() && keys[i] == k;
                    if i < keys.len() - 1 {
                        assert(rest[i] == k);
                    }
                }
                if rest.contains(k) {
                    let i = choose|i: int| 0 <= i < rest.len() && rest[i] == k;
                    assert(keys[i] == k);
                }
                if k == keys.last() {
                    assert(keys[keys.len() - 1] == k);
                }
            }
        }
    }
}

/// The told changes fit the map they change, and replaying them gives the new map.
pub proof fn delta_replays<K, V>(m: Map<K, V>, keys: Seq<K>, want: Map<K, V>)
    ensures
        fits_all(m, delta(m, keys, want)),
        replay(m, delta(m, keys, want)) == put_all(m, keys, want),
    decreases keys.len(),
{
    if keys.len() > 0 {
        let rest = keys.drop_last();
        delta_replays(m, rest, want);
        let mid = put_all(m, rest, want);
        let last = commit_change(keys.last(), lookup(mid, keys.last()), lookup(want, keys.last()));
        commit_change_replays(mid, keys.last(), lookup(want, keys.last()));
        replay_concat(m, delta(m, rest, want), last);
    }
}

/// Where the keys cover every difference, the new map is the desired one.
pub proof fn put_all_covers<K, V>(m: Map<K, V>, keys: Seq<K>, want: Map<K, V>)
    requires
        forall|k: K| !keys.contains(k) ==> #[trigger] lookup(m, k) == lookup(want, k),
    ensures
        put_all(m, keys, want) == want,
{
    put_all_lookup(m, keys, want);
    assert forall|k: K| #[trigger] lookup(put_all(m, keys, want), k) == lookup(want, k) by {
        if !keys.contains(k) {
            assert(lookup(m, k) == lookup(want, k));
        }
    }
    lookup_ext(put_all(m, keys, want), want);
}

/// What a function of rows makes of a map, row by row.
pub open spec fn piped<K, V, O>(rows: Map<K, V>, f: spec_fn(K, V) -> Option<O>) -> Map<K, O> {
    Map::new(
        |k: K| rows.contains_key(k) && f(k, rows[k]) is Some,
        |k: K| f(k, rows[k])->Some_0,
    )
}

pub proof fn piped_lookup<K, V, O>(rows: Map<K, V>, f: spec_fn(K, V) -> Option<O>, k: K)
    ensures
        lookup(piped(rows, f), k) == match lookup(rows, k) {
            Some(v) => f(k, v),
            None => None,
        },
{
}

/// The keys at which two maps differ.
pub open spec fn differing<K, V>(a: Map<K, V>, b: Map<K, V>) -> Set<K> {
    Set::new(|k: K| lookup(a, k) != lookup(b, k))
}

/// Touched keys at which nothing changes tell nothing.
pub proof fn delta_skips<K, V>(m: Map<K, V>, keys: Seq<K>, want: Map<K, V>, keep: Set<K>)
    requires
        keys.no_duplicates(),
        forall|k: K| keys.contains(k) && !keep.contains(k) ==> #[trigger] lookup(m, k) == lookup(want, k),
    ensures
        delta(m, kept(keys, keep), want) == delta(m, keys, want),
        put_all(m, kept(keys, keep), want) == put_all(m, keys, want),
    decreases keys.len(),
{
    if keys.len() > 0 {
        let rest = keys.drop_last();
        let last = keys.last();
        assert(!rest.contains(last));
        assert forall|k: K| rest.contains(k) && !keep.contains(k) implies #[trigger] lookup(m, k)
            == lookup(want, k) by {
            let i = choose|i: int| 0 <= i < rest.len() && rest[i] == k;
            assert(keys[i] == k);
            assert(keys.contains(k));
        }
        delta_skips(m, rest, want, keep);
        if keep.contains(last) {
            assert(kept(keys, keep).drop_last() =~= kept(rest, keep));
        } else {
            assert(keys[keys.len() - 1] == last);
            assert(keys.contains(last));
            put_all_lookup(m, rest, want);
            assert(lookup(put_all(m, rest, want), last) == lookup(want, last));
            put_same(put_all(m, rest, want), last);
            assert(commit_change(
                last,
                lookup(put_all(m, rest, want), last),
                lookup(want, last),
            ) =~= Seq::empty());
            assert(delta(m, rest, want) + Seq::empty() =~= delta(m, rest, want));
        }
    } else {
        assert(kept(keys, keep) =~= keys);
    }
}

/// Sets a key of a kept output map to a desired value, and tells the change if there is one.
pub fn commit_keyed_value<K: MapKey, V: CellValue>(
    output_cache: &mut FxMap<K, V>,
    key: K,
    desired_value: Option<V>,
    changes: &mut Vec<MapDiff<K, V>>,
)
    ensures
        final(output_cache)@ == put(old(output_cache)@, key.model(), desired_value.model()),
        appends(
            old(changes)@,
            final(changes)@,
            commit_change(
                key.model(),
                lookup(old(output_cache)@, key.model()),
                desired_value.model(),
            ),
        ),
        flat(old(changes)@) ==> flat(final(changes)@),
        steps_of(final(changes)@) == steps_of(old(changes)@) + commit_change(
            key.model(),
            lookup(old(output_cache)@, key.model()),
            desired_value.model(),
        ),
{
    let ghost k = key.model();
    let ghost start = changes@;
    let ghost none = Seq::<Change<K::Model, V::Model>>::empty();
    proof {
        put_same(output_cache@, k);
        assert(start.take(start.len() as int) =~= start);
        assert(appends(start, changes@, none));
    }
    let ghost told = commit_change(k, lookup(output_cache@, k), desired_value.model());
    match desired_value {
        Some(new_value) => {
            let same: bool = match output_cache.get(&key) {
                Some(old_value) => old_value.equals(&new_value),
                None => false,
            };
            if !same {
                let ghost n = new_value.model();
                match output_cache.insert(key.clone_value(), new_value.clone_value()) {
                    Some(old_value) => {
                        let diff = MapDiff::Update { key, old_value, new_value };
                        proof {
                            appends_push(start, changes@, none, diff);
                            assert(none.push(diff.atom()) =~= seq![diff.atom()]);
                        }
                        changes.push(diff);
                    },
                    None => {
                        let diff = MapDiff::Insert { key, value: new_value };
                        proof {
                            appends_push(start, changes@, none, diff);
                            assert(none.push(diff.atom()) =~= seq![diff.atom()]);
                        }
                        changes.push(diff);
                    },
                }
            }
        },
        None => match output_cache.remove(&key) {
            Some(old_value) => {
                let diff = MapDiff::Remove { key, old_value };
                proof {
                    appends_push(start, changes@, none, diff);
                    assert(none.push(diff.atom()) =~= seq![diff.atom()]);
                }
                changes.push(diff);
            },
            None => {},
        },
    }
    proof {
        appends_steps(start, changes@, told);
    }
}

/// The told changes depend on what is desired at the impacted keys alone.
pub proof fn delta_settles<K, V>(m: Map<K, V>, keys: Seq<K>, want: Map<K, V>)
    ensures
        delta(m, keys, want) == delta(m, keys, put_all(m, keys, want)),
{
    put_all_lookup(m, keys, want);
    delta_agrees(m, keys, want, put_all(m, keys, want));
}

pub proof fn delta_agrees<K, V>(m: Map<K, V>, keys: Seq<K>, a: Map<K, V>, b: Map<K, V>)
    requires
        forall|k: K| #[trigger] keys.contains(k) ==> lookup(a, k) == lookup(b, k),
    ensures
        delta(m, keys, a) == delta(m, keys, b),
        put_all(m, keys, a) == put_all(m, keys, b),
    decreases keys.len(),
{
    if keys.len() > 0 {
        let rest = keys.drop_last();
        assert forall|k: K| #[trigger] rest.contains(k) implies lookup(a, k) == lookup(b, k) by {
            let i = choose|i: int| 0 <= i < rest.len() && rest[i] == k;
            assert(keys[i] == k);
            assert(keys.contains(k));
        }
        delta_agrees(m, rest, a, b);
        assert(keys[keys.len() - 1] == keys.last());
        assert(keys.contains(keys.last()));
    }
}

} // verus!
