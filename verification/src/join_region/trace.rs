//! What a region tells of an event, in whatever way it works.
use vstd::prelude::*;

use crate::delta::{
    commit_change, delta, delta_replays, delta_skips, differing, piped, piped_lookup, put_all,
    put_all_covers, put_all_lookup,
};
use crate::diff::{apply_change, change_key, entries_map, fits_all, replay, replay_concat, Change};
use crate::fx::lookup;
use crate::index::{entry_keys, without, without_contains};
use crate::join_region::arrivals::{
    canon_keys, initial_ranks, last_arrivals, live_run, live_step, ranked, same_order, MergeOrder,
};
use crate::join_region::stage_runtime::{delta_shape, touches, touches_all, unique_steps};
use crate::join_runtime::rows::entries_map_keys;
use crate::join_runtime::sharded_laws::{order_covers, tells, tells_at};
use crate::merge::{is_order, leads_once};
use crate::ordered_set::{extend_new_contains, kept, kept_contains, push_new, push_new_contains};

verus! {

/// The changes of the output that an event is told with: change by change, each touched key in the
/// order of its place in the map.
pub open spec fn trace<K, V, O>(
    rows: Map<K, V>,
    live: Seq<K>,
    steps: Seq<Change<K, V>>,
    f: spec_fn(K, V) -> Option<O>,
) -> Seq<Change<K, O>>
    decreases steps.len(),
{
    if steps.len() == 0 {
        Seq::empty()
    } else {
        let rest = steps.drop_last();
        trace(rows, live, rest, f) + delta(
            piped(replay(rows, rest), f),
            canon_keys(live_run(live, rest), steps.last()),
            piped(replay(rows, steps), f),
        )
    }
}

/// The keys of a map are those that came and did not go.
pub open spec fn live_of<K, V>(live: Seq<K>, rows: Map<K, V>) -> bool {
    &&& live.no_duplicates()
    &&& forall|k: K| #[trigger] rows.contains_key(k) <==> live.contains(k)
}

proof fn last_arrivals_keys<K, V>(entries: Seq<(K, V)>)
    ensures
        last_arrivals(entries).no_duplicates(),
        forall|k: K| last_arrivals(entries).contains(k) <==> entry_keys(entries).contains(k),
    decreases entries.len(),
{
    if entries.len() > 0 {
        let rest = entries.drop_last();
        let k = entries.last().0;
        last_arrivals_keys(rest);
        let before = last_arrivals(rest);
        without_contains(before, k);
        push_new_contains(without(before, k), k);
        assert(entry_keys(entries) =~= entry_keys(rest).push(k));
        assert forall|x: K| last_arrivals(entries).contains(x) <==> entry_keys(entries).contains(x) by {
            assert(entry_keys(rest).push(k).contains(x) <==> entry_keys(rest).contains(x) || x == k) by {
                if entry_keys(rest).contains(x) {
                    let i = choose|i: int| 0 <= i < entry_keys(rest).len() && entry_keys(rest)[i] == x;
                    assert(entry_keys(rest).push(k)[i] == x);
                }
                assert(entry_keys(rest).push(k)[entry_keys(rest).len() as int] == k);
            }
            assert(!without(before, k).contains(k));
            assert(push_new(without(before, k), k) == without(before, k).push(k));
        }
    }
}

pub proof fn live_of_step<K, V>(live: Seq<K>, rows: Map<K, V>, change: Change<K, V>)
    requires
        live_of(live, rows),
    ensures
        live_of(live_step(live, change), apply_change(rows, change)),
{
    match change {
        Change::Initial { entries } => {
            last_arrivals_keys(entries);
            entries_map_keys(entries);
        },
        Change::Insert { key, value } => push_new_contains(live, key),
        Change::Remove { key, old_value } => without_contains(live, key),
        Change::Update { key, old_value, new_value } => push_new_contains(live, key),
    }
}

/// The keys that came and did not go stay the keys of the map.
pub proof fn live_of_run<K, V>(live: Seq<K>, rows: Map<K, V>, steps: Seq<Change<K, V>>)
    requires
        live_of(live, rows),
    ensures
        live_of(live_run(live, steps), replay(rows, steps)),
    decreases steps.len(),
{
    if steps.len() > 0 {
        live_of_run(live, rows, steps.drop_last());
        live_of_step(live_run(live, steps.drop_last()), replay(rows, steps.drop_last()), steps.last());
    }
}

/// A change changes no row but those of the keys that it touches.
pub proof fn canon_covers<K, V>(live: Seq<K>, rows: Map<K, V>, change: Change<K, V>)
    requires
        live_of(live, rows),
    ensures
        canon_keys(live, change).no_duplicates(),
        forall|k: K|
            !canon_keys(live, change).contains(k) ==> #[trigger] lookup(rows, k) == lookup(
                apply_change(rows, change),
                k,
            ),
{
    let keys = canon_keys(live, change);
    match change {
        Change::Initial { entries } => {
            extend_new_contains(live, entry_keys(entries));
            entries_map_keys(entries);
            assert forall|k: K| !keys.contains(k) implies #[trigger] lookup(rows, k) == lookup(
                apply_change(rows, change),
                k,
            ) by {
                assert(!rows.contains_key(k));
                assert(!entries_map(entries).contains_key(k));
            }
        },
        Change::Insert { key, value } => {
            assert(keys[0] == key);
        },
        Change::Remove { key, old_value } => {
            assert(keys[0] == key);
        },
        Change::Update { key, old_value, new_value } => {
            assert(keys[0] == key);
        },
    }
}

proof fn piped_covers<K, V, O>(
    a: Map<K, V>,
    b: Map<K, V>,
    keys: Seq<K>,
    f: spec_fn(K, V) -> Option<O>,
)
    requires
        forall|k: K| !keys.contains(k) ==> #[trigger] lookup(a, k) == lookup(b, k),
    ensures
        forall|k: K| !keys.contains(k) ==> #[trigger] lookup(piped(a, f), k) == lookup(piped(b, f), k),
        put_all(piped(a, f), keys, piped(b, f)) == piped(b, f),
{
    assert forall|k: K| !keys.contains(k) implies #[trigger] lookup(piped(a, f), k) == lookup(
        piped(b, f),
        k,
    ) by {
        assert(lookup(a, k) == lookup(b, k));
        piped_lookup(a, f, k);
        piped_lookup(b, f, k);
    }
    put_all_covers(piped(a, f), keys, piped(b, f));
}

/// What is told fits the output and leads to the new output.
pub proof fn trace_replays<K, V, O>(
    rows: Map<K, V>,
    live: Seq<K>,
    steps: Seq<Change<K, V>>,
    f: spec_fn(K, V) -> Option<O>,
)
    requires
        live_of(live, rows),
    ensures
        fits_all(piped(rows, f), trace(rows, live, steps, f)),
        replay(piped(rows, f), trace(rows, live, steps, f)) == piped(replay(rows, steps), f),
    decreases steps.len(),
{
    if steps.len() > 0 {
        let rest = steps.drop_last();
        trace_replays(rows, live, rest, f);
        live_of_run(live, rows, rest);
        let mid = replay(rows, rest);
        let keys = canon_keys(live_run(live, rest), steps.last());
        canon_covers(live_run(live, rest), mid, steps.last());
        piped_covers(mid, replay(rows, steps), keys, f);
        delta_replays(piped(mid, f), keys, piped(replay(rows, steps), f));
        replay_concat(
            piped(rows, f),
            trace(rows, live, rest, f),
            delta(piped(mid, f), keys, piped(replay(rows, steps), f)),
        );
    }
}

/// The key of a change of one row.
pub open spec fn key_of<K, V>(change: Change<K, V>) -> K {
    change_key(change)->Some_0
}

/// The keys of changes of single rows, in order.
pub open spec fn step_keys<K, V>(steps: Seq<Change<K, V>>) -> Seq<K> {
    steps.map_values(|c: Change<K, V>| key_of(c))
}

proof fn kept_ordered<K>(s: Seq<K>, keep: Set<K>, number: spec_fn(K) -> int)
    requires
        forall|i: int, j: int|
            0 <= i < j < s.len() ==> number(#[trigger] s[i]) < number(#[trigger] s[j]),
    ensures
        forall|i: int, j: int|
            0 <= i < j < kept(s, keep).len() ==> number(#[trigger] kept(s, keep)[i]) < number(
                #[trigger] kept(s, keep)[j],
            ),
        forall|i: int|
            0 <= i < kept(s, keep).len() && s.len() > 0 ==> number(#[trigger] kept(s, keep)[i])
                <= number(s.last()),
    decreases s.len(),
{
    if s.len() > 0 {
        let rest = s.drop_last();
        assert forall|i: int, j: int| 0 <= i < j < rest.len() implies number(#[trigger] rest[i])
            < number(#[trigger] rest[j]) by {
            assert(rest[i] == s[i] && rest[j] == s[j]);
        }
        kept_ordered(rest, keep, number);
        let k = kept(s, keep);
        let r = kept(rest, keep);
        kept_contains(rest, keep);
        assert forall|i: int| 0 <= i < r.len() implies number(#[trigger] r[i]) < number(s.last()) by {
            assert(r.contains(r[i]));
            assert(rest.contains(r[i]));
            let n = choose|n: int| 0 <= n < rest.len() && rest[n] == r[i];
            assert(s[n] == r[i]);
            assert(s[s.len() - 1] == s.last());
        }
        assert forall|i: int, j: int| 0 <= i < j < k.len() implies number(#[trigger] k[i]) < number(
            #[trigger] k[j],
        ) by {
            assert(k[i] == r[i]);
            if j < r.len() {
                assert(k[j] == r[j]);
            }
        }
        assert forall|i: int| 0 <= i < k.len() implies number(#[trigger] k[i]) <= number(s.last()) by {
            if i < r.len() {
                assert(k[i] == r[i]);
            }
        }
    }
}

/// Changes that take one map to another, one for each key that differs, in the order of numbers that
/// grow along a sequence of keys, are those that are told of that sequence.
pub proof fn told_in_order<K, V>(
    before: Map<K, V>,
    after: Map<K, V>,
    steps: Seq<Change<K, V>>,
    keys: Seq<K>,
    number: spec_fn(K) -> int,
)
    requires
        tells(before, after, steps),
        keys.no_duplicates(),
        forall|k: K| !keys.contains(k) ==> #[trigger] lookup(before, k) == lookup(after, k),
        forall|i: int, j: int|
            0 <= i < j < keys.len() ==> number(#[trigger] keys[i]) < number(#[trigger] keys[j]),
        forall|i: int, j: int|
            0 <= i < j < steps.len() ==> number(key_of(#[trigger] steps[i])) < number(
                key_of(#[trigger] steps[j]),
            ),
    ensures
        steps == delta(before, keys, after),
{
    let d = delta(before, keys, after);
    let diff = differing(before, after);
    let moved = kept(keys, diff);
    let ks = step_keys(steps);
    delta_shape(before, keys, after);
    kept_contains(keys, diff);
    kept_ordered(keys, diff, number);
    assert forall|i: int, j: int| 0 <= i < j < ks.len() implies number(#[trigger] ks[i]) < number(
        #[trigger] ks[j],
    ) by {
        assert(ks[i] == key_of(steps[i]) && ks[j] == key_of(steps[j]));
    }
    assert(ks.no_duplicates()) by {
        assert forall|i: int, j: int| 0 <= i < ks.len() && 0 <= j < ks.len() && i != j implies ks[i]
            != ks[j] by {
            if i < j {
                assert(number(ks[i]) < number(ks[j]));
            } else {
                assert(number(ks[j]) < number(ks[i]));
            }
        }
    }
    assert forall|k: K| ks.contains(k) <==> moved.contains(k) by {
        let b = lookup(before, k);
        let a = lookup(after, k);
        assert(tells_at(steps, k, b, a));
        if ks.contains(k) {
            let i = choose|i: int| 0 <= i < ks.len() && ks[i] == k;
            assert(change_key(steps[i]) is Some);
            assert(change_key(steps[i]) == Some(k));
            assert(b != a);
            assert(diff.contains(k));
            assert(keys.contains(k));
        }
        if moved.contains(k) {
            assert(diff.contains(k));
            let i = choose|i: int| #[trigger] leads_once(steps, k, b, a, i);
            assert(ks[i] == k);
        }
    }
    same_order(ks, moved, number);
    assert(steps.len() == d.len());
    assert forall|i: int| 0 <= i < steps.len() implies steps[i] == d[i] by {
        let k = ks[i];
        let b = lookup(before, k);
        let a = lookup(after, k);
        assert(k == moved[i]);
        assert(seq![d[i]] == commit_change(k, b, a));
        assert(seq![d[i]][0] == d[i]);
        assert(change_key(steps[i]) is Some);
        assert(tells_at(steps, k, b, a));
        let n = choose|n: int| #[trigger] leads_once(steps, k, b, a, n);
        assert(n == i);
    }
    assert(steps =~= d);
}

/// The same changes in another order take one map to the same other map.
pub proof fn tells_permuted<K, V>(
    before: Map<K, V>,
    after: Map<K, V>,
    steps: Seq<Change<K, V>>,
    other: Seq<Change<K, V>>,
    order: Seq<int>,
)
    requires
        tells(before, after, steps),
        is_order(order, steps.len()),
        other.len() == steps.len(),
        forall|i: int| 0 <= i < other.len() ==> #[trigger] other[i] == steps[order[i]],
    ensures
        tells(before, after, other),
{
    assert forall|i: int| 0 <= i < other.len() implies change_key(#[trigger] other[i]) is Some by {
        assert(0 <= order[i] < steps.len());
    }
    assert forall|k: K| #[trigger] tells_at(other, k, lookup(before, k), lookup(after, k)) by {
        let b = lookup(before, k);
        let a = lookup(after, k);
        assert(tells_at(steps, k, b, a));
        if b == a {
            assert forall|i: int| 0 <= i < other.len() implies change_key(#[trigger] other[i]) != Some(k) by {
                assert(0 <= order[i] < steps.len());
            }
        } else {
            let t = choose|t: int| #[trigger] leads_once(steps, k, b, a, t);
            order_covers(order, steps.len(), t);
            let n = choose|n: int| 0 <= n < steps.len() && order[n] == t;
            assert forall|i: int| 0 <= i < other.len() implies (change_key(#[trigger] other[i]) == Some(
                k,
            ) <==> i == n) by {
                assert(0 <= order[i] < steps.len());
                assert(other[i] == steps[order[i]]);
                if order[i] == t {
                    assert(order.no_duplicates());
                }
            }
            assert(leads_once(other, k, b, a, n));
        }
    }
}

/// Changes of other keys before or after do not matter to a key.
pub proof fn tells_at_concat<K, V>(
    a: Seq<Change<K, V>>,
    b: Seq<Change<K, V>>,
    k: K,
    before: Option<V>,
    after: Option<V>,
)
    ensures
        tells_at(a, k, before, after) && (forall|i: int|
            0 <= i < b.len() ==> change_key(#[trigger] b[i]) != Some(k)) ==> tells_at(
            a + b,
            k,
            before,
            after,
        ),
        tells_at(b, k, before, after) && (forall|i: int|
            0 <= i < a.len() ==> change_key(#[trigger] a[i]) != Some(k)) ==> tells_at(
            a + b,
            k,
            before,
            after,
        ),
{
    let s = a + b;
    assert forall|i: int| 0 <= i < s.len() implies #[trigger] s[i] == if i < a.len() {
        a[i]
    } else {
        b[i - a.len()]
    } by {}
    if tells_at(a, k, before, after) && (forall|i: int|
        0 <= i < b.len() ==> change_key(#[trigger] b[i]) != Some(k)) {
        if before != after {
            let i = choose|i: int| #[trigger] leads_once(a, k, before, after, i);
            assert forall|n: int| 0 <= n < s.len() implies (change_key(#[trigger] s[n]) == Some(k)
                <==> n == i) by {
                if n >= a.len() {
                    assert(change_key(b[n - a.len()]) != Some(k));
                } else {
                    assert(s[n] == a[n]);
                }
            }
            assert(s[i] == a[i]);
            assert(leads_once(s, k, before, after, i));
        } else {
            assert forall|n: int| 0 <= n < s.len() implies change_key(#[trigger] s[n]) != Some(k) by {
                if n >= a.len() {
                    assert(change_key(b[n - a.len()]) != Some(k));
                } else {
                    assert(s[n] == a[n]);
                }
            }
        }
    }
    if tells_at(b, k, before, after) && (forall|i: int|
        0 <= i < a.len() ==> change_key(#[trigger] a[i]) != Some(k)) {
        if before != after {
            let i = choose|i: int| #[trigger] leads_once(b, k, before, after, i);
            let m = a.len() + i;
            assert forall|n: int| 0 <= n < s.len() implies (change_key(#[trigger] s[n]) == Some(k)
                <==> n == m) by {
                if n >= a.len() {
                    assert(s[n] == b[n - a.len()]);
                    assert(change_key(b[n - a.len()]) == Some(k) <==> n - a.len() == i);
                } else {
                    assert(s[n] == a[n]);
                }
            }
            assert(s[m] == b[i]);
            assert(leads_once(s, k, before, after, m));
        } else {
            assert forall|n: int| 0 <= n < s.len() implies change_key(#[trigger] s[n]) != Some(k) by {
                if n >= a.len() {
                    assert(s[n] == b[n - a.len()]);
                    assert(change_key(b[n - a.len()]) != Some(k));
                } else {
                    assert(s[n] == a[n]);
                }
            }
        }
    }
}

/// The part of a map whose keys a shard is responsible for.
pub open spec fn key_part<K, V>(
    rows: Map<K, V>,
    route: spec_fn(K) -> int,
    shard: int,
) -> Map<K, V> {
    Map::new(|k: K| rows.contains_key(k) && route(k) == shard, |k: K| rows[k])
}

/// The entries whose keys a shard is responsible for.
pub open spec fn entries_part<K, V>(
    entries: Seq<(K, V)>,
    route: spec_fn(K) -> int,
    shard: int,
) -> Seq<(K, V)>
    decreases entries.len(),
{
    if entries.len() == 0 {
        Seq::empty()
    } else if route(entries.last().0) == shard {
        entries_part(entries.drop_last(), route, shard).push(entries.last())
    } else {
        entries_part(entries.drop_last(), route, shard)
    }
}

/// The part of changes whose keys a shard is responsible for. A new beginning concerns every shard.
pub open spec fn steps_part<K, V>(
    steps: Seq<Change<K, V>>,
    route: spec_fn(K) -> int,
    shard: int,
) -> Seq<Change<K, V>>
    decreases steps.len(),
{
    if steps.len() == 0 {
        Seq::empty()
    } else {
        let rest = steps_part(steps.drop_last(), route, shard);
        match steps.last() {
            Change::Initial { entries } => rest.push(
                Change::Initial { entries: entries_part(entries, route, shard) },
            ),
            _ => if route(key_of(steps.last())) == shard {
                rest.push(steps.last())
            } else {
                rest
            },
        }
    }
}

proof fn entries_part_map<K, V>(entries: Seq<(K, V)>, route: spec_fn(K) -> int, shard: int)
    ensures
        entries_map(entries_part(entries, route, shard)) == key_part(
            entries_map(entries),
            route,
            shard,
        ),
    decreases entries.len(),
{
    if entries.len() > 0 {
        let rest = entries.drop_last();
        entries_part_map(rest, route, shard);
        let p = entries_part(rest, route, shard);
        if route(entries.last().0) == shard {
            assert(p.push(entries.last()).drop_last() =~= p);
        }
        assert(entries_map(entries_part(entries, route, shard)) =~= key_part(
            entries_map(entries),
            route,
            shard,
        ));
    } else {
        assert(entries_map(entries_part(entries, route, shard)) =~= key_part(
            entries_map(entries),
            route,
            shard,
        ));
    }
}

/// A shard that follows its part of changes holds its part of the map.
pub proof fn part_replay<K, V>(
    rows: Map<K, V>,
    steps: Seq<Change<K, V>>,
    route: spec_fn(K) -> int,
    shard: int,
)
    ensures
        replay(key_part(rows, route, shard), steps_part(steps, route, shard)) == key_part(
            replay(rows, steps),
            route,
            shard,
        ),
    decreases steps.len(),
{
    if steps.len() > 0 {
        let rest = steps.drop_last();
        part_replay(rows, rest, route, shard);
        let part = steps_part(rest, route, shard);
        let p = key_part(rows, route, shard);
        match steps.last() {
            Change::Initial { entries } => {
                entries_part_map(entries, route, shard);
                let c = Change::Initial { entries: entries_part(entries, route, shard) };
                assert(part.push(c).drop_last() =~= part);
            },
            _ => {
                let c = steps.last();
                if route(key_of(c)) == shard {
                    assert(part.push(c).drop_last() =~= part);
                }
            },
        }
        assert(replay(p, steps_part(steps, route, shard)) =~= key_part(
            replay(rows, steps),
            route,
            shard,
        ));
    } else {
        assert(replay(key_part(rows, route, shard), steps_part(steps, route, shard)) =~= key_part(
            replay(rows, steps),
            route,
            shard,
        ));
    }
}

/// Part of changes of single rows, each of another key, are such changes.
pub proof fn part_unique<K, V>(steps: Seq<Change<K, V>>, route: spec_fn(K) -> int, shard: int)
    requires
        unique_steps(steps),
    ensures
        unique_steps(steps_part(steps, route, shard)),
        forall|i: int|
            0 <= i < steps_part(steps, route, shard).len() ==> steps.contains(
                #[trigger] steps_part(steps, route, shard)[i],
            ),
    decreases steps.len(),
{
    if steps.len() > 0 {
        let rest = steps.drop_last();
        assert forall|i: int| 0 <= i < rest.len() implies change_key(#[trigger] rest[i]) is Some by {
            assert(rest[i] == steps[i]);
        }
        assert forall|i: int, j: int| 0 <= i < j < rest.len() implies change_key(#[trigger] rest[i])
            != change_key(#[trigger] rest[j]) by {
            assert(rest[i] == steps[i] && rest[j] == steps[j]);
        }
        part_unique(rest, route, shard);
        let p = steps_part(rest, route, shard);
        let all = steps_part(steps, route, shard);
        let c = steps.last();
        assert(steps[steps.len() - 1] == c);
        assert(change_key(c) is Some);
        assert forall|i: int| 0 <= i < p.len() implies steps.contains(#[trigger] p[i]) && change_key(
            p[i],
        ) != change_key(c) by {
            assert(rest.contains(p[i]));
            let n = choose|n: int| 0 <= n < rest.len() && rest[n] == p[i];
            assert(steps[n] == p[i]);
            assert(change_key(steps[n]) != change_key(steps[steps.len() - 1]));
        }
        assert forall|i: int| 0 <= i < all.len() implies steps.contains(#[trigger] all[i]) by {
            if i < p.len() {
                assert(all[i] == p[i]);
            }
        }
        assert forall|i: int| 0 <= i < all.len() implies change_key(#[trigger] all[i]) is Some by {
            if i < p.len() {
                assert(all[i] == p[i]);
            }
        }
        assert forall|i: int, j: int| 0 <= i < j < all.len() implies change_key(#[trigger] all[i])
            != change_key(#[trigger] all[j]) by {
            assert(all[i] == p[i]);
            if j < p.len() {
                assert(all[j] == p[j]);
            }
        }
    }
}

/// The output of the part of a map is the part of the output.
pub proof fn piped_part<K, V, O>(
    rows: Map<K, V>,
    f: spec_fn(K, V) -> Option<O>,
    route: spec_fn(K) -> int,
    shard: int,
    k: K,
)
    ensures
        lookup(piped(key_part(rows, route, shard), f), k) == if route(k) == shard {
            lookup(piped(rows, f), k)
        } else {
            None
        },
{
    piped_lookup(rows, f, k);
    piped_lookup(key_part(rows, route, shard), f, k);
}

/// Changes of the first `n` shards, taken together.
pub open spec fn tells_upto<K, V>(
    before: Map<K, V>,
    after: Map<K, V>,
    steps: Seq<Change<K, V>>,
    route: spec_fn(K) -> int,
    n: int,
) -> bool {
    &&& forall|i: int| 0 <= i < steps.len() ==> change_key(#[trigger] steps[i]) is Some
    &&& forall|k: K|
        #![trigger route(k)]
        if 0 <= route(k) < n {
            tells_at(steps, k, lookup(before, k), lookup(after, k))
        } else {
            forall|i: int| 0 <= i < steps.len() ==> change_key(#[trigger] steps[i]) != Some(k)
        }
}

/// The changes of one more shard.
pub proof fn tells_upto_next<K, V>(
    before: Map<K, V>,
    after: Map<K, V>,
    steps: Seq<Change<K, V>>,
    route: spec_fn(K) -> int,
    n: int,
    shard_before: Map<K, V>,
    shard_after: Map<K, V>,
    more: Seq<Change<K, V>>,
)
    requires
        0 <= n,
        tells_upto(before, after, steps, route, n),
        tells(shard_before, shard_after, more),
        forall|k: K| #[trigger]
            lookup(shard_before, k) == if route(k) == n {
                lookup(before, k)
            } else {
                None
            },
        forall|k: K| #[trigger]
            lookup(shard_after, k) == if route(k) == n {
                lookup(after, k)
            } else {
                None
            },
    ensures
        tells_upto(before, after, steps + more, route, n + 1),
{
    let all = steps + more;
    assert forall|i: int| 0 <= i < all.len() implies change_key(#[trigger] all[i]) is Some by {
        if i < steps.len() {
            assert(all[i] == steps[i]);
        } else {
            assert(all[i] == more[i - steps.len()]);
        }
    }
    assert forall|k: K|
        #![trigger route(k)]
        if 0 <= route(k) < n + 1 {
            tells_at(all, k, lookup(before, k), lookup(after, k))
        } else {
            forall|i: int| 0 <= i < all.len() ==> change_key(#[trigger] all[i]) != Some(k)
        } by {
        let b = lookup(before, k);
        let a = lookup(after, k);
        assert(tells_at(more, k, lookup(shard_before, k), lookup(shard_after, k)));
        tells_at_concat(steps, more, k, b, a);
        if route(k) != n {
            assert(lookup(shard_before, k) == None::<V>);
            assert(lookup(shard_after, k) == None::<V>);
            if !(0 <= route(k) < n + 1) {
                assert forall|i: int| 0 <= i < all.len() implies change_key(#[trigger] all[i]) != Some(k) by {
                    if i < steps.len() {
                        assert(all[i] == steps[i]);
                    } else {
                        assert(all[i] == more[i - steps.len()]);
                    }
                }
            }
        }
    }
}

/// The changes of all shards together take the whole map to the new one.
pub proof fn tells_upto_all<K, V>(
    before: Map<K, V>,
    after: Map<K, V>,
    steps: Seq<Change<K, V>>,
    route: spec_fn(K) -> int,
    n: int,
)
    requires
        tells_upto(before, after, steps, route, n),
        forall|k: K| 0 <= #[trigger] route(k) < n,
    ensures
        tells(before, after, steps),
{
    assert forall|k: K| #[trigger] tells_at(steps, k, lookup(before, k), lookup(after, k)) by {
        assert(0 <= route(k) < n);
    }
}

/// Changes of rows with different keys touch those keys, but for removals of rows that are not there.
proof fn unique_touches<K, V>(
    rows: Map<K, V>,
    steps: Seq<Change<K, V>>,
    keys: Seq<K>,
)
    requires
        unique_steps(steps),
        touches_all(rows, steps, Seq::empty(), keys),
    ensures
        step_keys(steps).no_duplicates(),
        keys == kept(step_keys(steps), keys.to_set()),
        forall|k: K|
            !step_keys(steps).contains(k) ==> #[trigger] lookup(replay(rows, steps), k) == lookup(rows, k),
        forall|k: K|
            step_keys(steps).contains(k) && !keys.contains(k) ==> #[trigger] lookup(
                replay(rows, steps),
                k,
            ) == lookup(rows, k),
        forall|k: K| keys.contains(k) ==> step_keys(steps).contains(k),
        keys.no_duplicates(),
    decreases steps.len(),
{
    let all = step_keys(steps);
    if steps.len() == 0 {
        assert(kept(all, keys.to_set()) =~= Seq::empty());
        assert(keys =~= Seq::empty());
    } else {
        let rest = steps.drop_last();
        let c = steps.last();
        assert(steps[steps.len() - 1] == c);
        assert(change_key(c) is Some);
        let k = key_of(c);
        assert forall|i: int| 0 <= i < rest.len() implies change_key(#[trigger] rest[i]) is Some by {
            assert(rest[i] == steps[i]);
        }
        assert forall|i: int, j: int| 0 <= i < j < rest.len() implies change_key(#[trigger] rest[i])
            != change_key(#[trigger] rest[j]) by {
            assert(rest[i] == steps[i] && rest[j] == steps[j]);
        }
        let mid = choose|mid: Seq<K>|
            touches_all(rows, rest, Seq::empty(), mid) && #[trigger] touches(
                replay(rows, rest),
                c,
                mid,
                keys,
            );
        unique_touches(rows, rest, mid);
        let before = step_keys(rest);
        assert(all =~= before.push(k));
        assert(!before.contains(k)) by {
            if before.contains(k) {
                let i = choose|i: int| 0 <= i < before.len() && before[i] == k;
                assert(change_key(rest[i]) is Some);
                assert(rest[i] == steps[i]);
                assert(change_key(steps[i]) != change_key(steps[steps.len() - 1]));
            }
        }
        assert(!mid.contains(k));
        assert(all.drop_last() =~= before);
        assert forall|x: K| all.contains(x) <==> before.contains(x) || x == k by {
            if before.contains(x) {
                let i = choose|i: int| 0 <= i < before.len() && before[i] == x;
                assert(all[i] == x);
            }
            assert(all[before.len() as int] == k);
            if all.contains(x) {
                let i = choose|i: int| 0 <= i < all.len() && all[i] == x;
                if i < before.len() {
                    assert(before[i] == x);
                }
            }
        }
        push_new_contains(mid, k);
        assert(keys == mid || keys == mid.push(k));
        kept_ext(before, mid.to_set(), keys.to_set());
        assert(keys.to_set().contains(k) == (keys == mid.push(k))) by {
            if keys == mid.push(k) {
                assert(keys[mid.len() as int] == k);
                assert(keys.contains(k));
            }
        }
        assert(kept(all, keys.to_set()) =~= keys);
        assert forall|x: K| keys.contains(x) implies all.contains(x) by {
            assert(push_new(mid, k).contains(x) <==> mid.contains(x) || x == k);
            if mid.contains(x) {
                assert(before.contains(x));
            }
        }
        let m = replay(rows, rest);
        let end = replay(rows, steps);
        assert(lookup(m, k) == lookup(rows, k));
        assert(end == apply_change(m, c));
        assert forall|x: K| x != k implies #[trigger] lookup(end, x) == lookup(m, x) by {}
        assert forall|x: K| !all.contains(x) implies #[trigger] lookup(end, x) == lookup(rows, x) by {
            assert(x != k && !before.contains(x));
            assert(lookup(m, x) == lookup(rows, x));
        }
        assert forall|x: K| all.contains(x) && !keys.contains(x) implies #[trigger] lookup(end, x)
            == lookup(rows, x) by {
            if x == k {
                assert(!m.contains_key(k));
            } else {
                assert(before.contains(x) && !mid.contains(x)) by {
                    if mid.contains(x) {
                        assert(push_new(mid, k).contains(x));
                    }
                }
                assert(lookup(m, x) == lookup(rows, x));
            }
        }
    }
}

/// Keeping depends on the elements of the sequence only.
proof fn kept_ext<K>(s: Seq<K>, a: Set<K>, b: Set<K>)
    requires
        forall|k: K| #[trigger] s.contains(k) ==> a.contains(k) == b.contains(k),
    ensures
        kept(s, a) == kept(s, b),
    decreases s.len(),
{
    if s.len() > 0 {
        assert(s.contains(s.last())) by {
            assert(s[s.len() - 1] == s.last());
        }
        assert forall|k: K| #[trigger] s.drop_last().contains(k) implies a.contains(k) == b.contains(k) by {
            let i = choose|i: int| 0 <= i < s.drop_last().len() && s.drop_last()[i] == k;
            assert(s[i] == k);
            assert(s.contains(k));
        }
        kept_ext(s.drop_last(), a, b);
    }
}

/// What is told of changes of rows with different keys as a whole is what is told of them one by
/// one.
pub proof fn unique_trace<K, V, O>(
    rows: Map<K, V>,
    live: Seq<K>,
    steps: Seq<Change<K, V>>,
    f: spec_fn(K, V) -> Option<O>,
    last: Map<K, O>,
)
    requires
        unique_steps(steps),
        forall|k: K|
            step_keys(steps).contains(k) ==> #[trigger] lookup(last, k) == lookup(
                piped(replay(rows, steps), f),
                k,
            ),
    ensures
        delta(piped(rows, f), step_keys(steps), last) == trace(rows, live, steps, f),
        step_keys(steps).no_duplicates(),
        forall|k: K|
            !step_keys(steps).contains(k) ==> #[trigger] lookup(replay(rows, steps), k) == lookup(rows, k),
    decreases steps.len(),
{
    let all = step_keys(steps);
    if steps.len() > 0 {
        let rest = steps.drop_last();
        let c = steps.last();
        assert(steps[steps.len() - 1] == c);
        assert(change_key(c) is Some);
        let k = key_of(c);
        assert forall|i: int| 0 <= i < rest.len() implies change_key(#[trigger] rest[i]) is Some by {
            assert(rest[i] == steps[i]);
        }
        assert forall|i: int, j: int| 0 <= i < j < rest.len() implies change_key(#[trigger] rest[i])
            != change_key(#[trigger] rest[j]) by {
            assert(rest[i] == steps[i] && rest[j] == steps[j]);
        }
        let before = step_keys(rest);
        assert(all =~= before.push(k));
        assert(all.drop_last() =~= before);
        assert(!before.contains(k)) by {
            if before.contains(k) {
                let i = choose|i: int| 0 <= i < before.len() && before[i] == k;
                assert(change_key(rest[i]) is Some);
                assert(rest[i] == steps[i]);
                assert(change_key(steps[i]) != change_key(steps[steps.len() - 1]));
            }
        }
        let mid = replay(rows, rest);
        let end = replay(rows, steps);
        assert forall|x: K| before.contains(x) implies #[trigger] lookup(last, x) == lookup(
            piped(mid, f),
            x,
        ) by {
            let i = choose|i: int| 0 <= i < before.len() && before[i] == x;
            assert(all[i] == x);
            assert(all.contains(x));
            assert(lookup(mid, x) == lookup(end, x));
            piped_lookup(mid, f, x);
            piped_lookup(end, f, x);
            assert(lookup(last, x) == lookup(piped(end, f), x));
        }
        unique_trace(rows, live, rest, f, last);
        put_all_lookup(piped(rows, f), before, last);
        assert(lookup(mid, k) == lookup(rows, k));
        piped_lookup(mid, f, k);
        piped_lookup(rows, f, k);
        assert(all[before.len() as int] == k);
        assert(all.contains(k));
        assert(lookup(last, k) == lookup(piped(end, f), k));
        let ks = canon_keys(live_run(live, rest), c);
        assert(ks =~= seq![k]);
        let pm = piped(mid, f);
        let pe = piped(end, f);
        assert(ks.drop_last() =~= Seq::empty());
        assert(delta(pm, ks, pe) == delta(pm, ks.drop_last(), pe) + commit_change(
            ks.last(),
            lookup(put_all(pm, ks.drop_last(), pe), ks.last()),
            lookup(pe, ks.last()),
        ));
        assert(delta(pm, ks.drop_last(), pe) =~= Seq::empty());
        assert(delta(pm, ks, pe) =~= commit_change(k, lookup(pm, k), lookup(pe, k)));
        assert forall|x: K| !all.contains(x) implies #[trigger] lookup(end, x) == lookup(rows, x) by {
            assert(!before.contains(x)) by {
                if before.contains(x) {
                    let i = choose|i: int| 0 <= i < before.len() && before[i] == x;
                    assert(all[i] == x);
                }
            }
            assert(x != k);
            assert(lookup(mid, x) == lookup(rows, x));
        }
    }
}

/// What is told of a unit of changes as a whole, in the order in which it was worked through, is
/// what is told of them one by one. A new beginning has to be put into the order of its keys first.
pub proof fn unit_trace<K, V, O>(
    rows: Map<K, V>,
    live: Seq<K>,
    steps: Seq<Change<K, V>>,
    f: spec_fn(K, V) -> Option<O>,
    keys: Seq<K>,
)
    requires
        unique_steps(steps),
        touches_all(rows, steps, Seq::empty(), keys),
    ensures
        delta(piped(rows, f), keys, piped(replay(rows, steps), f)) == trace(rows, live, steps, f),
{
    let out = piped(rows, f);
    let out2 = piped(replay(rows, steps), f);
    let all = step_keys(steps);
    unique_touches(rows, steps, keys);
    unique_trace(rows, live, steps, f, out2);
    assert forall|k: K| all.contains(k) && !keys.to_set().contains(k) implies #[trigger] lookup(out, k)
        == lookup(out2, k) by {
        assert(!keys.contains(k));
        assert(lookup(replay(rows, steps), k) == lookup(rows, k));
        piped_lookup(rows, f, k);
        piped_lookup(replay(rows, steps), f, k);
    }
    delta_skips(out, all, out2, keys.to_set());
}

/// The order of an event of changes of rows with different keys is that of the changes.
pub proof fn unique_order<K, V>(live: Seq<K>, steps: Seq<Change<K, V>>)
    requires
        unique_steps(steps),
        steps.len() <= u64::MAX,
    ensures
        ({
            let r = (MergeOrder { live, order: Map::<K, u64>::empty(), next: 0 }).run(steps);
            &&& ranked(r.order, step_keys(steps))
            &&& r.next == steps.len()
        }),
    decreases steps.len(),
{
    let start = MergeOrder { live, order: Map::<K, u64>::empty(), next: 0 };
    let all = step_keys(steps);
    if steps.len() > 0 {
        let rest = steps.drop_last();
        let c = steps.last();
        assert(steps[steps.len() - 1] == c);
        assert(change_key(c) is Some);
        let k = key_of(c);
        assert forall|i: int| 0 <= i < rest.len() implies change_key(#[trigger] rest[i]) is Some by {
            assert(rest[i] == steps[i]);
        }
        assert forall|i: int, j: int| 0 <= i < j < rest.len() implies change_key(#[trigger] rest[i])
            != change_key(#[trigger] rest[j]) by {
            assert(rest[i] == steps[i] && rest[j] == steps[j]);
        }
        unique_order(live, rest);
        let before = step_keys(rest);
        assert(all =~= before.push(k));
        assert(!before.contains(k)) by {
            if before.contains(k) {
                let i = choose|i: int| 0 <= i < before.len() && before[i] == k;
                assert(change_key(rest[i]) is Some);
                assert(rest[i] == steps[i]);
                assert(change_key(steps[i]) != change_key(steps[steps.len() - 1]));
            }
        }
        let r = start.run(rest);
        let m = r.order.insert(k, r.next);
        push_new_contains(before, k);
        assert(start.run(steps).order == m);
        assert forall|i: int| 0 <= i < all.len() implies m[#[trigger] all[i]] == i by {
            if i < before.len() {
                assert(all[i] == before[i]);
                assert(before.contains(before[i]));
            }
        }
    } else {
        assert(all =~= Seq::empty());
    }
}

/// The order of a new beginning on its own: the keys of the map in the order in which they came,
/// then the new ones.
pub proof fn initial_order<K, V>(live: Seq<K>, entries: Seq<(K, V)>)
    requires
        live.no_duplicates(),
        live.len() + entries.len() <= u64::MAX,
    ensures
        ({
            let steps = seq![Change::Initial { entries }];
            let r = (MergeOrder { live, order: Map::<K, u64>::empty(), next: 0 }).run(steps);
            ranked(r.order, canon_keys(live, steps[0]))
        }),
{
    let steps = seq![Change::Initial { entries }];
    let start = MergeOrder { live, order: Map::<K, u64>::empty(), next: 0 };
    assert(steps.drop_last() =~= Seq::empty());
    assert(start.run(steps) == start.run(steps.drop_last()).step(steps.last()));
    initial_ranks(live, entry_keys(entries));
}

/// The part of changes for a shard, one part after the other.
pub proof fn steps_part_concat<K, V>(
    a: Seq<Change<K, V>>,
    b: Seq<Change<K, V>>,
    route: spec_fn(K) -> int,
    shard: int,
)
    ensures
        steps_part(a + b, route, shard) == steps_part(a, route, shard) + steps_part(b, route, shard),
    decreases b.len(),
{
    if b.len() == 0 {
        assert(a + b =~= a);
        assert(steps_part(a, route, shard) + steps_part(b, route, shard) =~= steps_part(
            a,
            route,
            shard,
        ));
    } else {
        assert((a + b).drop_last() =~= a + b.drop_last());
        assert((a + b).last() == b.last());
        steps_part_concat(a, b.drop_last(), route, shard);
        assert(steps_part(a + b, route, shard) =~= steps_part(a, route, shard) + steps_part(
            b,
            route,
            shard,
        ));
    }
}

/// The keys of a map after changes, one part after the other.
pub proof fn live_run_concat<K, V>(live: Seq<K>, a: Seq<Change<K, V>>, b: Seq<Change<K, V>>)
    ensures
        live_run(live, a + b) == live_run(live_run(live, a), b),
    decreases b.len(),
{
    if b.len() == 0 {
        assert(a + b =~= a);
    } else {
        assert((a + b).drop_last() =~= a + b.drop_last());
        live_run_concat(live, a, b.drop_last());
    }
}

/// What is told of changes, one part after the other.
pub proof fn trace_concat<K, V, O>(
    rows: Map<K, V>,
    live: Seq<K>,
    a: Seq<Change<K, V>>,
    b: Seq<Change<K, V>>,
    f: spec_fn(K, V) -> Option<O>,
)
    ensures
        trace(rows, live, a + b, f) == trace(rows, live, a, f) + trace(
            replay(rows, a),
            live_run(live, a),
            b,
            f,
        ),
    decreases b.len(),
{
    if b.len() == 0 {
        assert(a + b =~= a);
        assert(trace(rows, live, a, f) + trace(replay(rows, a), live_run(live, a), b, f) =~= trace(
            rows,
            live,
            a,
            f,
        ));
    } else {
        let rest = b.drop_last();
        assert((a + b).drop_last() =~= a + rest);
        assert((a + b).last() == b.last());
        trace_concat(rows, live, a, rest, f);
        replay_concat(rows, a, rest);
        replay_concat(rows, a, b);
        live_run_concat(live, a, rest);
        assert(trace(rows, live, a + b, f) =~= trace(rows, live, a, f) + trace(
            replay(rows, a),
            live_run(live, a),
            b,
            f,
        ));
    }
}

/// Changes that are worked through as a whole: one change, or changes of rows with different keys.
pub open spec fn unit_steps<K, V>(steps: Seq<Change<K, V>>) -> bool {
    steps.len() == 1 || unique_steps(steps)
}

/// The keys that a unit of changes touches, in order.
pub open spec fn unit_keys<K, V>(live: Seq<K>, steps: Seq<Change<K, V>>) -> Seq<K> {
    if steps.len() == 1 {
        canon_keys(live, steps[0])
    } else {
        step_keys(steps)
    }
}

/// What is told of a unit of changes is told of the keys that it touches, in order.
pub proof fn unit_told<K, V, O>(
    rows: Map<K, V>,
    live: Seq<K>,
    steps: Seq<Change<K, V>>,
    f: spec_fn(K, V) -> Option<O>,
)
    requires
        live_of(live, rows),
        unit_steps(steps),
    ensures
        unit_keys(live, steps).no_duplicates(),
        trace(rows, live, steps, f) == delta(
            piped(rows, f),
            unit_keys(live, steps),
            piped(replay(rows, steps), f),
        ),
        forall|k: K|
            !unit_keys(live, steps).contains(k) ==> #[trigger] lookup(piped(rows, f), k) == lookup(
                piped(replay(rows, steps), f),
                k,
            ),
{
    let keys = unit_keys(live, steps);
    let end = replay(rows, steps);
    if steps.len() == 1 {
        let rest = steps.drop_last();
        assert(rest =~= Seq::empty());
        assert(replay(rows, rest) == rows);
        assert(live_run(live, rest) == live);
        assert(trace(rows, live, rest, f) =~= Seq::empty());
        let d = delta(piped(rows, f), keys, piped(end, f));
        assert(Seq::empty() + d =~= d);
        canon_covers(live, rows, steps[0]);
    } else {
        unique_trace(rows, live, steps, f, piped(end, f));
    }
    assert forall|k: K| !keys.contains(k) implies #[trigger] lookup(piped(rows, f), k) == lookup(
        piped(end, f),
        k,
    ) by {
        assert(lookup(rows, k) == lookup(end, k));
        piped_lookup(rows, f, k);
        piped_lookup(end, f, k);
    }
}

} // verus!
