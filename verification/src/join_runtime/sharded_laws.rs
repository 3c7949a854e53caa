//! Shards together do what one join does.
use vstd::prelude::*;

use crate::delta::{commit_change, delta, put_all, put_all_lookup, put_lookup};
use crate::diff::{change_key, fits_all, replay, Change};
use crate::fx::lookup;
use crate::index::{empty_side, entry_keys, Side};
use crate::join_runtime::sharded::{
    merge_rank, merges, no_routed, send_reset, tagged, LeftRouting, RightRouting,
};
use crate::join_runtime::state::{joined, joined_lookup};
use crate::merge::{
    is_order, leads_at, leads_once, leads_replays, leads_twice, rank_before, sorted_by, Rank,
};
use crate::shard::{dropped_absent, part, part_join, part_set, part_wf, side_ext};

verus! {

/// Changes that take one map to another, each key at most once.
pub open spec fn tells<K, V>(
    before: Map<K, V>,
    after: Map<K, V>,
    steps: Seq<Change<K, V>>,
) -> bool {
    &&& forall|i: int| 0 <= i < steps.len() ==> change_key(#[trigger] steps[i]) is Some
    &&& forall|k: K| #[trigger] tells_at(steps, k, lookup(before, k), lookup(after, k))
}

/// Changes that take a key from one value to another: none if they are the same, one otherwise.
pub open spec fn tells_at<K, V>(
    steps: Seq<Change<K, V>>,
    k: K,
    before: Option<V>,
    after: Option<V>,
) -> bool {
    if before == after {
        forall|i: int| 0 <= i < steps.len() ==> change_key(#[trigger] steps[i]) != Some(k)
    } else {
        exists|i: int| #[trigger] leads_once(steps, k, before, after, i)
    }
}

proof fn tells_each_once<K, V>(before: Map<K, V>, after: Map<K, V>, steps: Seq<Change<K, V>>)
    requires
        tells(before, after, steps),
    ensures
        steps.no_duplicates(),
{
    assert forall|i: int, j: int| 0 <= i < steps.len() && 0 <= j < steps.len() && i != j implies steps[i]
        != steps[j] by {
        let k = change_key(steps[i])->Some_0;
        assert(tells_at(steps, k, lookup(before, k), lookup(after, k)));
        if lookup(before, k) != lookup(after, k) {
            let n = choose|n: int| #[trigger]
                leads_once(steps, k, lookup(before, k), lookup(after, k), n);
            assert(change_key(steps[i]) == Some(k) <==> i == n);
            assert(change_key(steps[j]) == Some(k) <==> j == n);
        }
    }
}

proof fn tells_within<K, V>(
    before: Map<K, V>,
    after: Map<K, V>,
    a: Seq<Change<K, V>>,
    b: Seq<Change<K, V>>,
    i: int,
)
    requires
        tells(before, after, a),
        tells(before, after, b),
        0 <= i < a.len(),
    ensures
        b.contains(a[i]),
{
    let k = change_key(a[i])->Some_0;
    let u = lookup(before, k);
    let v = lookup(after, k);
    assert(tells_at(a, k, u, v));
    assert(tells_at(b, k, u, v));
    assert(u != v);
    let x = choose|n: int| #[trigger] leads_once(a, k, u, v, n);
    let y = choose|n: int| #[trigger] leads_once(b, k, u, v, n);
    assert(change_key(a[i]) == Some(k) <==> i == x);
    assert(b[y] == a[i]);
}

/// Changes that take one map to another, each key at most once, are the same up to their order.
pub proof fn tells_same<K, V>(
    before: Map<K, V>,
    after: Map<K, V>,
    a: Seq<Change<K, V>>,
    b: Seq<Change<K, V>>,
)
    requires
        tells(before, after, a),
        tells(before, after, b),
    ensures
        a.to_multiset() == b.to_multiset(),
{
    tells_each_once(before, after, a);
    tells_each_once(before, after, b);
    a.to_multiset_ensures();
    b.to_multiset_ensures();
    a.lemma_multiset_has_no_duplicates();
    b.lemma_multiset_has_no_duplicates();
    assert forall|c: Change<K, V>| #[trigger] a.to_multiset().count(c) == b.to_multiset().count(c) by {
        if a.contains(c) {
            let i = choose|i: int| 0 <= i < a.len() && a[i] == c;
            tells_within(before, after, a, b, i);
        }
        if b.contains(c) {
            let i = choose|i: int| 0 <= i < b.len() && b[i] == c;
            tells_within(before, after, b, a, i);
        }
    }
    assert(a.to_multiset() =~= b.to_multiset());
}

/// What a join tells of touched keys, each named once, takes each key to its new value by at most
/// one change.
pub proof fn delta_tells<K, V>(m: Map<K, V>, keys: Seq<K>, want: Map<K, V>)
    requires
        keys.no_duplicates(),
    ensures
        tells(m, put_all(m, keys, want), delta(m, keys, want)),
    decreases keys.len(),
{
    let steps = delta(m, keys, want);
    let after = put_all(m, keys, want);
    if keys.len() == 0 {
        assert forall|k: K| #[trigger] tells_at(steps, k, lookup(m, k), lookup(after, k)) by {}
    } else {
        let rest = keys.drop_last();
        let last = keys.last();
        let head = delta(m, rest, want);
        let mid = put_all(m, rest, want);
        let tail = commit_change(last, lookup(mid, last), lookup(want, last));
        delta_tells(m, rest, want);
        put_lookup(mid, last, lookup(want, last));
        put_all_lookup(m, rest, want);
        assert(!rest.contains(last));
        assert(steps == head + tail);
        assert forall|i: int| 0 <= i < steps.len() implies change_key(#[trigger] steps[i]) is Some by {
            if i < head.len() {
                assert(steps[i] == head[i]);
            }
        }
        assert forall|k: K| #[trigger] tells_at(steps, k, lookup(m, k), lookup(after, k)) by {
            let b = lookup(m, k);
            let a = lookup(after, k);
            assert(tells_at(head, k, b, lookup(mid, k)));
            if k == last {
                assert(lookup(mid, k) == b);
                assert(a == lookup(want, k));
                if b == a {
                    assert(tail =~= Seq::empty());
                    assert(steps =~= head);
                } else {
                    assert(tail.len() == 1);
                    assert(leads_once(steps, k, b, a, head.len() as int)) by {
                        assert forall|n: int| 0 <= n < steps.len() implies (change_key(
                            #[trigger] steps[n],
                        ) == Some(k) <==> n == head.len()) by {
                            if n < head.len() {
                                assert(steps[n] == head[n]);
                            }
                        }
                    }
                }
            } else {
                assert(lookup(mid, k) == a);
                assert forall|n: int| head.len() <= n < steps.len() implies change_key(
                    #[trigger] steps[n],
                ) != Some(k) by {}
                if b == a {
                    assert forall|n: int| 0 <= n < steps.len() implies change_key(#[trigger] steps[n])
                        != Some(k) by {
                        if n < head.len() {
                            assert(steps[n] == head[n]);
                        }
                    }
                } else {
                    let i = choose|i: int| #[trigger] leads_once(head, k, b, a, i);
                    assert(leads_once(steps, k, b, a, i)) by {
                        assert(steps[i] == head[i]);
                        assert forall|n: int| 0 <= n < steps.len() implies (change_key(
                            #[trigger] steps[n],
                        ) == Some(k) <==> n == i) by {
                            if n < head.len() {
                                assert(steps[n] == head[n]);
                            }
                        }
                    }
                }
            }
        }
    }
}

/// The number of changes of the shards before a shard.
pub open spec fn offset<C>(shards: Seq<Seq<C>>, s: int) -> int
    decreases s,
{
    if s <= 0 {
        0
    } else {
        offset(shards, s - 1) + shards[s - 1].len()
    }
}

proof fn offset_prefix<C>(a: Seq<Seq<C>>, b: Seq<Seq<C>>, s: int)
    requires
        0 <= s <= a.len(),
        s <= b.len(),
        forall|i: int| 0 <= i < s ==> a[i] == b[i],
    ensures
        offset(a, s) == offset(b, s),
        offset(a, s) >= 0,
    decreases s,
{
    if s > 0 {
        offset_prefix(a, b, s - 1);
    }
}

/// The shard of a place among the changes of all shards.
pub open spec fn shard_at<C>(shards: Seq<Seq<C>>, t: int) -> int
    decreases shards.len(),
{
    if shards.len() == 0 {
        -1
    } else if t >= offset(shards, shards.len() - 1) {
        shards.len() - 1
    } else {
        shard_at(shards.drop_last(), t)
    }
}

proof fn tagged_len<K, V>(shards: Seq<Seq<Change<K, V>>>, place: spec_fn(K) -> u64)
    ensures
        tagged(shards, place).len() == offset(shards, shards.len() as int),
    decreases shards.len(),
{
    if shards.len() > 0 {
        tagged_len(shards.drop_last(), place);
        offset_prefix(shards.drop_last(), shards, shards.len() - 1);
    }
}

/// The changes of the shards lie one shard after the other.
proof fn tagged_place<K, V>(
    shards: Seq<Seq<Change<K, V>>>,
    place: spec_fn(K) -> u64,
    s: int,
    l: int,
)
    requires
        0 <= s < shards.len(),
        0 <= l < shards[s].len(),
    ensures
        0 <= offset(shards, s) + l < tagged(shards, place).len(),
        tagged(shards, place)[offset(shards, s) + l] == (
            merge_rank(place, shards[s][l], l),
            shards[s][l],
        ),
    decreases shards.len(),
{
    let rest = shards.drop_last();
    let last = shards.last();
    let own = Seq::new(last.len(), |l: int| (merge_rank(place, last[l], l), last[l]));
    assert(tagged(shards, place) == tagged(rest, place) + own);
    tagged_len(rest, place);
    offset_prefix(rest, shards, rest.len() as int);
    offset_prefix(shards, shards, s);
    if s < rest.len() {
        offset_prefix(rest, shards, s);
        assert(rest[s] == shards[s]);
        tagged_place(rest, place, s, l);
        assert(tagged(shards, place)[offset(shards, s) + l] == tagged(rest, place)[offset(rest, s)
            + l]);
    } else {
        assert(tagged(shards, place)[offset(shards, s) + l] == own[l]);
    }
}

/// Each place among the changes of all shards belongs to a shard.
proof fn tagged_shard<K, V>(shards: Seq<Seq<Change<K, V>>>, place: spec_fn(K) -> u64, t: int)
    requires
        0 <= t < tagged(shards, place).len(),
    ensures
        0 <= shard_at(shards, t) < shards.len(),
        offset(shards, shard_at(shards, t)) <= t < offset(shards, shard_at(shards, t))
            + shards[shard_at(shards, t)].len(),
    decreases shards.len(),
{
    tagged_len(shards, place);
    if shards.len() > 0 {
        let rest = shards.drop_last();
        tagged_len(rest, place);
        offset_prefix(rest, shards, rest.len() as int);
        if t < offset(shards, shards.len() - 1) {
            tagged_shard(rest, place, t);
            offset_prefix(rest, shards, shard_at(rest, t));
        }
    }
}

/// An order of `n` places names every place.
pub proof fn order_covers(order: Seq<int>, n: nat, t: int)
    requires
        is_order(order, n),
        0 <= t < n,
    ensures
        exists|i: int| 0 <= i < n && order[i] == t,
{
    let range = vstd::set_lib::set_int_range(0, n as int);
    vstd::set_lib::lemma_int_range(0, n as int);
    order.unique_seq_to_set();
    assert(order.to_set().subset_of(range)) by {
        assert forall|x: int| order.to_set().contains(x) implies range.contains(x) by {
            let i = choose|i: int| 0 <= i < order.len() && order[i] == x;
            assert(0 <= order[i] < n);
        }
    }
    vstd::set_lib::lemma_subset_equality(order.to_set(), range);
    assert(order.to_set().contains(t));
    assert(order.contains(t));
}

/// Merged changes of shards, where before and after the event each key belongs to one shard, take
/// the union of the shards to their new union.
pub proof fn merged_replays<K, V>(
    before: Map<K, V>,
    after: Map<K, V>,
    shard_before: Seq<Map<K, V>>,
    shard_after: Seq<Map<K, V>>,
    changes: Seq<Seq<Change<K, V>>>,
    place: spec_fn(K) -> u64,
    merged: Seq<Change<K, V>>,
    pre: spec_fn(K) -> int,
    post: spec_fn(K) -> int,
)
    requires
        shard_before.len() == changes.len(),
        shard_after.len() == changes.len(),
        forall|s: int|
            0 <= s < changes.len() ==> tells(
                shard_before[s],
                shard_after[s],
                #[trigger] changes[s],
            ),
        merges(changes, place, merged),
        forall|k: K| 0 <= #[trigger] pre(k) < changes.len(),
        forall|k: K| 0 <= #[trigger] post(k) < changes.len(),
        forall|s: int, k: K|
            0 <= s < changes.len() ==> #[trigger] lookup(shard_before[s], k) == if s == pre(k) {
                lookup(before, k)
            } else {
                None
            },
        forall|s: int, k: K|
            0 <= s < changes.len() ==> #[trigger] lookup(shard_after[s], k) == if s == post(k) {
                lookup(after, k)
            } else {
                None
            },
    ensures
        fits_all(before, merged),
        replay(before, merged) == after,
{
    let all = tagged(changes, place);
    let (sorted, order) = choose|sorted: Seq<(Rank, Change<K, V>)>, order: Seq<int>| #[trigger]
        sorted_by(all, sorted, order) && merged == sorted.map_values(
            |e: (Rank, Change<K, V>)| e.1,
        );
    assert forall|i: int| 0 <= i < merged.len() implies change_key(#[trigger] merged[i]) is Some by {
        source_of(changes, place, merged, sorted, order, i);
    }
    assert forall|k: K| #[trigger] leads_at(merged, k, lookup(before, k), lookup(after, k)) by {
        let p = pre(k);
        let q = post(k);
        let b = lookup(before, k);
        let a = lookup(after, k);
        assert(0 <= p < changes.len() && 0 <= q < changes.len());
        assert forall|s: int, l: int|
            0 <= s < changes.len() && 0 <= l < changes[s].len() && change_key(
                #[trigger] changes[s][l],
            ) == Some(k) implies s == p || s == q by {
            if s != p && s != q {
                assert(lookup(shard_before[s], k) == None::<V>);
                assert(lookup(shard_after[s], k) == None::<V>);
                assert(tells(shard_before[s], shard_after[s], changes[s]));
                assert(tells_at(changes[s], k, lookup(shard_before[s], k), lookup(shard_after[s], k)));
            }
        }
        assert(tells(shard_before[p], shard_after[p], changes[p]));
        assert(tells(shard_before[q], shard_after[q], changes[q]));
        assert(tells_at(changes[p], k, lookup(shard_before[p], k), lookup(shard_after[p], k)));
        assert(tells_at(changes[q], k, lookup(shard_before[q], k), lookup(shard_after[q], k)));
        let pa = lookup(shard_after[p], k);
        let qb = lookup(shard_before[q], k);
        assert(lookup(shard_before[p], k) == b);
        assert(lookup(shard_after[q], k) == a);
        assert(p != q ==> pa == None::<V> && qb == None::<V>);
        assert(p == q ==> pa == a && qb == b);
        if b == pa && qb == a {
            assert(a == b);
            assert forall|i: int| 0 <= i < merged.len() implies change_key(#[trigger] merged[i])
                != Some(k) by {
                source_of(changes, place, merged, sorted, order, i);
                let t = order[i];
                let s = shard_at(changes, t);
                let l = t - offset(changes, s);
                assert(merged[i] == changes[s][l]);
                if change_key(changes[s][l]) == Some(k) {
                    assert(s == p || s == q);
                }
            }
        } else if p == q || qb == a {
            let i = choose|i: int| #[trigger] leads_once(changes[p], k, b, pa, i);
            assert forall|s: int, l: int|
                0 <= s < changes.len() && 0 <= l < changes[s].len() && change_key(
                    #[trigger] changes[s][l],
                ) == Some(k) implies s == p && l == i by {
                if s == q && q != p {
                    assert(change_key(changes[q][l]) != Some(k));
                }
            }
            assert(pa == a);
            once_in_merged(changes, place, merged, sorted, order, k, b, a, p, i);
        } else if b == pa {
            let i = choose|i: int| #[trigger] leads_once(changes[q], k, qb, a, i);
            assert forall|s: int, l: int|
                0 <= s < changes.len() && 0 <= l < changes[s].len() && change_key(
                    #[trigger] changes[s][l],
                ) == Some(k) implies s == q && l == i by {
                if s == p {
                    assert(change_key(changes[p][l]) != Some(k));
                }
            }
            assert(qb == b);
            once_in_merged(changes, place, merged, sorted, order, k, b, a, q, i);
        } else {
            let i = choose|i: int| #[trigger] leads_once(changes[p], k, b, pa, i);
            let j = choose|j: int| #[trigger] leads_once(changes[q], k, qb, a, j);
            twice_in_merged(changes, place, merged, sorted, order, k, b, a, p, i, q, j);
        }
    }
    leads_replays(before, after, merged);
}

/// Each merged change is a change of a shard.
proof fn source_of<K, V>(
    changes: Seq<Seq<Change<K, V>>>,
    place: spec_fn(K) -> u64,
    merged: Seq<Change<K, V>>,
    sorted: Seq<(Rank, Change<K, V>)>,
    order: Seq<int>,
    i: int,
)
    requires
        sorted_by(tagged(changes, place), sorted, order),
        merged == sorted.map_values(|e: (Rank, Change<K, V>)| e.1),
        0 <= i < merged.len(),
    ensures
        ({
            let t = order[i];
            let s = shard_at(changes, t);
            let l = t - offset(changes, s);
            &&& 0 <= t < tagged(changes, place).len()
            &&& 0 <= s < changes.len()
            &&& 0 <= l < changes[s].len()
            &&& merged[i] == changes[s][l]
            &&& sorted[i].0 == merge_rank(place, changes[s][l], l)
        }),
{
    let t = order[i];
    assert(0 <= order[i] < tagged(changes, place).len());
    tagged_shard(changes, place, t);
    let s = shard_at(changes, t);
    let l = t - offset(changes, s);
    assert(sorted[i] == tagged(changes, place)[order[i]]);
    tagged_place(changes, place, s, l);
}

/// The place among the merged changes of a change of a shard.
proof fn place_of<K, V>(
    changes: Seq<Seq<Change<K, V>>>,
    place: spec_fn(K) -> u64,
    merged: Seq<Change<K, V>>,
    sorted: Seq<(Rank, Change<K, V>)>,
    order: Seq<int>,
    s: int,
    l: int,
) -> (n: int)
    requires
        sorted_by(tagged(changes, place), sorted, order),
        merged == sorted.map_values(|e: (Rank, Change<K, V>)| e.1),
        0 <= s < changes.len(),
        0 <= l < changes[s].len(),
    ensures
        0 <= n < merged.len(),
        order[n] == offset(changes, s) + l,
        merged[n] == changes[s][l],
        sorted[n].0 == merge_rank(place, changes[s][l], l),
{
    let t = offset(changes, s) + l;
    tagged_place(changes, place, s, l);
    order_covers(order, tagged(changes, place).len(), t);
    let n = choose|n: int| 0 <= n < tagged(changes, place).len() && order[n] == t;
    assert(sorted[n] == tagged(changes, place)[order[n]]);
    n
}

/// Two places among the merged changes that stand for the same change of a shard are one.
proof fn same_place<K, V>(
    changes: Seq<Seq<Change<K, V>>>,
    place: spec_fn(K) -> u64,
    merged: Seq<Change<K, V>>,
    sorted: Seq<(Rank, Change<K, V>)>,
    order: Seq<int>,
    i: int,
    n: int,
)
    requires
        sorted_by(tagged(changes, place), sorted, order),
        merged == sorted.map_values(|e: (Rank, Change<K, V>)| e.1),
        0 <= i < merged.len(),
        0 <= n < merged.len(),
        order[i] == order[n],
    ensures
        i == n,
{
    assert(order.no_duplicates());
}

proof fn once_in_merged<K, V>(
    changes: Seq<Seq<Change<K, V>>>,
    place: spec_fn(K) -> u64,
    merged: Seq<Change<K, V>>,
    sorted: Seq<(Rank, Change<K, V>)>,
    order: Seq<int>,
    k: K,
    b: Option<V>,
    a: Option<V>,
    p: int,
    i: int,
)
    requires
        sorted_by(tagged(changes, place), sorted, order),
        merged == sorted.map_values(|e: (Rank, Change<K, V>)| e.1),
        0 <= p < changes.len(),
        leads_once(changes[p], k, b, a, i),
        forall|s: int, l: int|
            0 <= s < changes.len() && 0 <= l < changes[s].len() && change_key(
                #[trigger] changes[s][l],
            ) == Some(k) ==> s == p && l == i,
    ensures
        leads_at(merged, k, b, a),
{
    let n = place_of(changes, place, merged, sorted, order, p, i);
    assert(change_key(changes[p][i]) == Some(k));
    assert forall|m: int| 0 <= m < merged.len() implies (change_key(#[trigger] merged[m]) == Some(k)
        <==> m == n) by {
        source_of(changes, place, merged, sorted, order, m);
        let t = order[m];
        let s = shard_at(changes, t);
        let l = t - offset(changes, s);
        if change_key(merged[m]) == Some(k) {
            assert(change_key(changes[s][l]) == Some(k));
            same_place(changes, place, merged, sorted, order, m, n);
        }
    }
    assert(leads_once(merged, k, b, a, n));
}

proof fn twice_in_merged<K, V>(
    changes: Seq<Seq<Change<K, V>>>,
    place: spec_fn(K) -> u64,
    merged: Seq<Change<K, V>>,
    sorted: Seq<(Rank, Change<K, V>)>,
    order: Seq<int>,
    k: K,
    b: Option<V>,
    a: Option<V>,
    p: int,
    i: int,
    q: int,
    j: int,
)
    requires
        sorted_by(tagged(changes, place), sorted, order),
        merged == sorted.map_values(|e: (Rank, Change<K, V>)| e.1),
        0 <= p < changes.len(),
        0 <= q < changes.len(),
        p != q,
        b is Some,
        a is Some,
        leads_once(changes[p], k, b, None, i),
        leads_once(changes[q], k, None, a, j),
        forall|s: int, l: int|
            0 <= s < changes.len() && 0 <= l < changes[s].len() && change_key(
                #[trigger] changes[s][l],
            ) == Some(k) ==> s == p || s == q,
    ensures
        leads_at(merged, k, b, a),
{
    let n = place_of(changes, place, merged, sorted, order, p, i);
    let m = place_of(changes, place, merged, sorted, order, q, j);
    assert(change_key(changes[p][i]) == Some(k));
    assert(change_key(changes[q][j]) == Some(k));
    assert(n < m) by {
        if m <= n {
            if m < n {
                assert(rank_before(sorted[m].0, sorted[n].0) || (sorted[m].0 == sorted[n].0
                    && order[m] < order[n]));
            }
            assert(sorted[n].0.0 == place(k) && sorted[n].0.1 == 1);
            assert(sorted[m].0.0 == place(k) && sorted[m].0.1 == 3);
        }
    }
    assert forall|x: int| 0 <= x < merged.len() implies (change_key(#[trigger] merged[x]) == Some(k)
        <==> x == n || x == m) by {
        source_of(changes, place, merged, sorted, order, x);
        let t = order[x];
        let s = shard_at(changes, t);
        let l = t - offset(changes, s);
        if change_key(merged[x]) == Some(k) {
            assert(change_key(changes[s][l]) == Some(k));
            if s == p {
                same_place(changes, place, merged, sorted, order, x, n);
            } else {
                same_place(changes, place, merged, sorted, order, x, m);
            }
        }
    }
    assert(leads_twice(merged, k, b, a, n, m));
}

/// The routes of a routing are those of the rows of a side.
pub open spec fn routes_agree<K, V, J>(
    routes: Map<K, usize>,
    side: Side<K, V, J>,
    route: spec_fn(J) -> int,
) -> bool {
    &&& forall|k: K| #[trigger] routes.contains_key(k) == side.rows.contains_key(k)
    &&& forall|k: K| #[trigger] routes.contains_key(k) ==> routes[k] as int == route(side.keys[k])
}

/// Each shard that follows the changes routed to it holds its part of a side.
pub open spec fn shards_follow<K, V, J>(
    start: Side<K, V, J>,
    side: Side<K, V, J>,
    routed: Seq<Seq<Change<K, V>>>,
    jk: spec_fn(K, V) -> Option<J>,
    route: spec_fn(J) -> int,
) -> bool {
    forall|s: int|
        #![trigger routed[s]]
        0 <= s < routed.len() ==> part(start, route, s).run(routed[s], jk) == part(side, route, s)
}

proof fn run_push<K, V, J>(
    side: Side<K, V, J>,
    steps: Seq<Change<K, V>>,
    change: Change<K, V>,
    jk: spec_fn(K, V) -> Option<J>,
)
    ensures
        side.run(steps.push(change), jk) == side.run(steps, jk).step(change, jk),
{
    assert(steps.push(change).drop_last() =~= steps);
}

/// Setting a row that is new, or stays in its shard, or moves by a removal and an insertion, keeps
/// each shard at its part.
proof fn follow_set<K, V, J>(
    start: Side<K, V, J>,
    side: Side<K, V, J>,
    routed: Seq<Seq<Change<K, V>>>,
    jk: spec_fn(K, V) -> Option<J>,
    route: spec_fn(J) -> int,
    k: K,
    v: V,
    s: int,
)
    requires
        side.wf(),
        0 <= s < routed.len(),
        part(start, route, s).run(routed[s], jk) == part(side, route, s),
    ensures
        part_join(jk(k, v), route, s) is Some ==> part(start, route, s).run(
            routed[s].push(Change::Insert { key: k, value: v }),
            jk,
        ) == part(side.set(k, v, jk(k, v)), route, s),
        part_join(jk(k, v), route, s) is Some ==> forall|u: V|
            part(start, route, s).run(
                #[trigger] routed[s].push(Change::Update { key: k, old_value: u, new_value: v }),
                jk,
            ) == part(side.set(k, v, jk(k, v)), route, s),
        part_join(jk(k, v), route, s) is None ==> forall|u: V|
            part(start, route, s).run(
                #[trigger] routed[s].push(Change::Remove { key: k, old_value: u }),
                jk,
            ) == part(side.set(k, v, jk(k, v)), route, s),
        part_join(jk(k, v), route, s) is None && !part(side, route, s).rows.contains_key(k) ==> part(
            start,
            route,
            s,
        ).run(routed[s], jk) == part(side.set(k, v, jk(k, v)), route, s),
{
    part_set(side, route, s, k, v, jk(k, v));
    part_wf(side, route, s);
    run_push(part(start, route, s), routed[s], Change::Insert { key: k, value: v }, jk);
    assert forall|u: V| part_join(jk(k, v), route, s) is Some implies part(start, route, s).run(
        #[trigger] routed[s].push(Change::Update { key: k, old_value: u, new_value: v }),
        jk,
    ) == part(side.set(k, v, jk(k, v)), route, s) by {
        run_push(
            part(start, route, s),
            routed[s],
            Change::Update { key: k, old_value: u, new_value: v },
            jk,
        );
    }
    assert forall|u: V| part_join(jk(k, v), route, s) is None implies part(start, route, s).run(
        #[trigger] routed[s].push(Change::Remove { key: k, old_value: u }),
        jk,
    ) == part(side.set(k, v, jk(k, v)), route, s) by {
        run_push(part(start, route, s), routed[s], Change::Remove { key: k, old_value: u }, jk);
    }
    if !part(side, route, s).rows.contains_key(k) {
        dropped_absent(part(side, route, s), k);
    }
}

/// Removing a row keeps each shard at its part.
proof fn follow_drop<K, V, J>(
    start: Side<K, V, J>,
    side: Side<K, V, J>,
    routed: Seq<Seq<Change<K, V>>>,
    jk: spec_fn(K, V) -> Option<J>,
    route: spec_fn(J) -> int,
    k: K,
    u: V,
    s: int,
)
    requires
        side.wf(),
        0 <= s < routed.len(),
        part(start, route, s).run(routed[s], jk) == part(side, route, s),
    ensures
        part(start, route, s).run(routed[s].push(Change::Remove { key: k, old_value: u }), jk) == part(
            side.dropped(k),
            route,
            s,
        ),
        !part(side, route, s).rows.contains_key(k) ==> part(start, route, s).run(routed[s], jk) == part(
            side.dropped(k),
            route,
            s,
        ),
{
    crate::shard::part_dropped(side, route, s, k);
    part_wf(side, route, s);
    run_push(part(start, route, s), routed[s], Change::Remove { key: k, old_value: u }, jk);
    if !part(side, route, s).rows.contains_key(k) {
        dropped_absent(part(side, route, s), k);
    }
}

/// The shard function of rows that all have a join key agrees with that of their join keys.
pub open spec fn left_shards<K, V, J>(
    to: spec_fn(K, V) -> int,
    jk: spec_fn(K, V) -> Option<J>,
    route: spec_fn(J) -> int,
    count: nat,
) -> bool {
    forall|k: K, v: V|
        #![trigger to(k, v)]
        #![trigger jk(k, v)]
        jk(k, v) is Some && to(k, v) == route(jk(k, v)->Some_0) && 0 <= to(k, v) < count && to(
            k,
            v,
        ) as usize as int == to(k, v)
}

/// Starting anew without rows keeps each shard at its part of the empty side.
proof fn follow_reset<K, V, J>(
    start: Side<K, V, J>,
    routed: Seq<Seq<Change<K, V>>>,
    jk: spec_fn(K, V) -> Option<J>,
    route: spec_fn(J) -> int,
)
    ensures
        shards_follow(start, empty_side::<K, V, J>(), send_reset(routed), jk, route),
{
    let empty = empty_side::<K, V, J>();
    assert forall|s: int|
        #![trigger send_reset(routed)[s]]
        0 <= s < send_reset(routed).len() implies part(start, route, s).run(
        send_reset(routed)[s],
        jk,
    ) == part(empty, route, s) by {
        let reset = Change::Initial { entries: Seq::<(K, V)>::empty() };
        run_push(part(start, route, s), routed[s], reset, jk);
        side_ext(part(empty, route, s), empty);
        assert(empty.load(Seq::<(K, V)>::empty(), jk) == empty);
    }
}

proof fn follow_enter_all<K, V, J>(
    start: Side<K, V, J>,
    base: LeftRouting<K, V>,
    entries: Seq<(K, V)>,
    to: spec_fn(K, V) -> int,
    jk: spec_fn(K, V) -> Option<J>,
    route: spec_fn(J) -> int,
    count: nat,
)
    requires
        left_shards(to, jk, route, count),
        base.routed.len() == count,
        base.routes == Map::<K, usize>::empty(),
        shards_follow(start, empty_side::<K, V, J>(), base.routed, jk, route),
        entry_keys(entries).no_duplicates(),
    ensures
        base.enter_all(entries, to).routed.len() == count,
        shards_follow(
            start,
            empty_side::<K, V, J>().load(entries, jk),
            base.enter_all(entries, to).routed,
            jk,
            route,
        ),
        routes_agree(
            base.enter_all(entries, to).routes,
            empty_side::<K, V, J>().load(entries, jk),
            route,
        ),
        forall|k: K| #[trigger]
            empty_side::<K, V, J>().load(entries, jk).rows.contains_key(k) ==> entry_keys(
                entries,
            ).contains(k),
    decreases entries.len(),
{
    let empty = empty_side::<K, V, J>();
    if entries.len() > 0 {
        let rest = entries.drop_last();
        let (k, v) = entries.last();
        assert(entry_keys(rest) =~= entry_keys(entries).drop_last());
        assert(entry_keys(rest).no_duplicates());
        follow_enter_all(start, base, rest, to, jk, route, count);
        let side = empty.load(rest, jk);
        let r = base.enter_all(rest, to);
        crate::index::empty_side_wf::<K, V, J>(jk);
        empty.load_effect(rest, jk);
        assert(!entry_keys(rest).contains(k)) by {
            if entry_keys(rest).contains(k) {
                let i = choose|i: int| 0 <= i < rest.len() && entry_keys(rest)[i] == k;
                assert(entry_keys(entries)[i] == entry_keys(entries)[entries.len() - 1]);
            }
        }
        assert(!side.rows.contains_key(k));
        let next = base.enter_all(entries, to);
        assert(jk(k, v) is Some && to(k, v) == route(jk(k, v)->Some_0));
        assert forall|s: int|
            #![trigger next.routed[s]]
            0 <= s < next.routed.len() implies part(start, route, s).run(next.routed[s], jk)
            == part(side.set(k, v, jk(k, v)), route, s) by {
            let _ = r.routed[s];
            follow_set(start, side, r.routed, jk, route, k, v, s);
        }
        assert forall|x: K| #[trigger] empty.load(entries, jk).rows.contains_key(x) implies entry_keys(
            entries,
        ).contains(x) by {
            assert(entry_keys(entries)[entries.len() - 1] == k);
            if x != k {
                assert(side.rows.contains_key(x));
                let i = choose|i: int| 0 <= i < rest.len() && entry_keys(rest)[i] == x;
                assert(entry_keys(entries)[i] == x);
            }
        }
    } else {
        assert(empty.load(entries, jk) == empty);
    }
}

/// One routed left change keeps each shard at its part, and the routes with the rows.
proof fn follow_left_step<K, V, J>(
    start: Side<K, V, J>,
    side: Side<K, V, J>,
    r: LeftRouting<K, V>,
    place: u64,
    change: Change<K, V>,
    to: spec_fn(K, V) -> int,
    jk: spec_fn(K, V) -> Option<J>,
    route: spec_fn(J) -> int,
    count: nat,
)
    requires
        side.wf(),
        side.admits(change),
        left_shards(to, jk, route, count),
        r.routed.len() == count,
        shards_follow(start, side, r.routed, jk, route),
        routes_agree(r.routes, side, route),
        forall|k: K| #[trigger] r.routes.contains_key(k) ==> r.routes[k] < count,
    ensures
        r.step(place, change, to).routed.len() == count,
        shards_follow(start, side.step(change, jk), r.step(place, change, to).routed, jk, route),
        routes_agree(r.step(place, change, to).routes, side.step(change, jk), route),
        forall|k: K| #[trigger]
            r.step(place, change, to).routes.contains_key(k) ==> r.step(place, change, to).routes[k]
                < count,
{
    let next = r.step(place, change, to);
    let after = side.step(change, jk);
    match change {
        Change::Initial { entries } => {
            follow_reset(start, r.routed, jk, route);
            let base = LeftRouting::<K, V> {
                routes: Map::empty(),
                sequence: Map::empty(),
                next: 0,
                ordinals: r.ordinals,
                routed: send_reset(r.routed),
            };
            follow_enter_all(start, base, entries, to, jk, route, count);
            entered_in_range(base, entries, to, jk, route, count);
        },
        Change::Insert { key, value } => {
            assert(jk(key, value) is Some);
            assert forall|s: int|
                #![trigger next.routed[s]]
                0 <= s < next.routed.len() implies part(start, route, s).run(next.routed[s], jk)
                == part(after, route, s) by {
                let _ = r.routed[s];
                follow_set(start, side, r.routed, jk, route, key, value, s);
            }
        },
        Change::Update { key, old_value, new_value } => {
            assert(jk(key, new_value) is Some);
            let a = r.old_route(key, old_value, to);
            let b = to(key, new_value);
            let _ = to(key, old_value);
            assert(0 <= a < count);
            assert forall|s: int|
                #![trigger next.routed[s]]
                0 <= s < next.routed.len() implies part(start, route, s).run(next.routed[s], jk)
                == part(after, route, s) by {
                let _ = r.routed[s];
                follow_set(start, side, r.routed, jk, route, key, new_value, s);
                assert(part(side, route, s).rows.contains_key(key) ==> r.routes.contains_key(key)
                    && r.routes[key] as int == s);
            }
        },
        Change::Remove { key, old_value } => {
            let a = r.old_route(key, old_value, to);
            let _ = to(key, old_value);
            assert forall|s: int|
                #![trigger next.routed[s]]
                0 <= s < next.routed.len() implies part(start, route, s).run(next.routed[s], jk)
                == part(after, route, s) by {
                let _ = r.routed[s];
                follow_drop(start, side, r.routed, jk, route, key, old_value, s);
                assert(part(side, route, s).rows.contains_key(key) ==> r.routes.contains_key(key)
                    && r.routes[key] as int == s);
            }
        },
    }
}

proof fn entered_in_range<K, V, J>(
    base: LeftRouting<K, V>,
    entries: Seq<(K, V)>,
    to: spec_fn(K, V) -> int,
    jk: spec_fn(K, V) -> Option<J>,
    route: spec_fn(J) -> int,
    count: nat,
)
    requires
        left_shards(to, jk, route, count),
        forall|k: K| #[trigger] base.routes.contains_key(k) ==> base.routes[k] < count,
    ensures
        forall|k: K| #[trigger]
            base.enter_all(entries, to).routes.contains_key(k) ==> base.enter_all(
                entries,
                to,
            ).routes[k] < count,
    decreases entries.len(),
{
    if entries.len() > 0 {
        entered_in_range(base, entries.drop_last(), to, jk, route, count);
        let (k, v) = entries.last();
        assert(0 <= to(k, v) < count && to(k, v) as usize as int == to(k, v));
        let prev = base.enter_all(entries.drop_last(), to).routes;
        let next = base.enter_all(entries, to).routes;
        assert(next == prev.insert(k, to(k, v) as usize));
        assert forall|x: K| #[trigger] next.contains_key(x) implies next[x] < count by {
            if x != k {
                assert(prev.contains_key(x));
            }
        }
    }
}

/// Shards that follow the left changes routed to them hold their parts of the left side.
pub proof fn follow_left<K, V, J>(
    start: Side<K, V, J>,
    r: LeftRouting<K, V>,
    steps: Seq<Change<K, V>>,
    to: spec_fn(K, V) -> int,
    jk: spec_fn(K, V) -> Option<J>,
    route: spec_fn(J) -> int,
    count: nat,
)
    requires
        start.wf(),
        start.admits_all(steps, jk),
        left_shards(to, jk, route, count),
        r.routed == no_routed::<K, V>(count),
        routes_agree(r.routes, start, route),
        forall|k: K| #[trigger] r.routes.contains_key(k) ==> r.routes[k] < count,
    ensures
        r.run(steps, to).routed.len() == count,
        shards_follow(start, start.run(steps, jk), r.run(steps, to).routed, jk, route),
        routes_agree(r.run(steps, to).routes, start.run(steps, jk), route),
        forall|k: K| #[trigger]
            r.run(steps, to).routes.contains_key(k) ==> r.run(steps, to).routes[k] < count,
    decreases steps.len(),
{
    if steps.len() > 0 {
        let rest = steps.drop_last();
        follow_left(start, r, rest, to, jk, route, count);
        start.run_effect(rest, jk);
        follow_left_step(
            start,
            start.run(rest, jk),
            r.run(rest, to),
            (steps.len() - 1) as u64,
            steps.last(),
            to,
            jk,
            route,
            count,
        );
    } else {
        assert forall|s: int|
            #![trigger r.routed[s]]
            0 <= s < r.routed.len() implies part(start, route, s).run(r.routed[s], jk) == part(
            start,
            route,
            s,
        ) by {}
    }
}

/// The shard function of rows agrees with that of their join keys.
pub open spec fn right_shards<K, V, J>(
    to: spec_fn(K, V) -> Option<int>,
    jk: spec_fn(K, V) -> Option<J>,
    route: spec_fn(J) -> int,
    count: nat,
) -> bool {
    forall|k: K, v: V|
        #![trigger to(k, v)]
        #![trigger jk(k, v)]
        (jk(k, v) is Some == to(k, v) is Some) && (to(k, v) is Some ==> to(k, v)->Some_0 == route(
            jk(k, v)->Some_0,
        ) && 0 <= to(k, v)->Some_0 < count && to(k, v)->Some_0 as usize as int == to(k, v)->Some_0)
}

/// Setting a new right row keeps each shard at its part, and the routes with the rows.
proof fn follow_right_enter<K, V, J>(
    start: Side<K, V, J>,
    side: Side<K, V, J>,
    r: RightRouting<K, V>,
    k: K,
    v: V,
    to: spec_fn(K, V) -> Option<int>,
    jk: spec_fn(K, V) -> Option<J>,
    route: spec_fn(J) -> int,
    count: nat,
)
    requires
        side.wf(),
        !side.rows.contains_key(k),
        right_shards(to, jk, route, count),
        r.routed.len() == count,
        shards_follow(start, side, r.routed, jk, route),
        routes_agree(r.routes, side, route),
        forall|x: K| #[trigger] r.routes.contains_key(x) ==> r.routes[x] < count,
    ensures
        r.enter(k, v, to).routed.len() == count,
        shards_follow(start, side.set(k, v, jk(k, v)), r.enter(k, v, to).routed, jk, route),
        routes_agree(r.enter(k, v, to).routes, side.set(k, v, jk(k, v)), route),
        forall|x: K| #[trigger]
            r.enter(k, v, to).routes.contains_key(x) ==> r.enter(k, v, to).routes[x] < count,
{
    let next = r.enter(k, v, to);
    let after = side.set(k, v, jk(k, v));
    let _ = to(k, v);
    assert forall|s: int|
        #![trigger next.routed[s]]
        0 <= s < next.routed.len() implies part(start, route, s).run(next.routed[s], jk) == part(
        after,
        route,
        s,
    ) by {
        let _ = r.routed[s];
        follow_set(start, side, r.routed, jk, route, k, v, s);
    }
}

proof fn follow_right_enter_all<K, V, J>(
    start: Side<K, V, J>,
    base: RightRouting<K, V>,
    entries: Seq<(K, V)>,
    to: spec_fn(K, V) -> Option<int>,
    jk: spec_fn(K, V) -> Option<J>,
    route: spec_fn(J) -> int,
    count: nat,
)
    requires
        right_shards(to, jk, route, count),
        base.routed.len() == count,
        base.routes == Map::<K, usize>::empty(),
        shards_follow(start, empty_side::<K, V, J>(), base.routed, jk, route),
        entry_keys(entries).no_duplicates(),
    ensures
        base.enter_all(entries, to).routed.len() == count,
        shards_follow(
            start,
            empty_side::<K, V, J>().load(entries, jk),
            base.enter_all(entries, to).routed,
            jk,
            route,
        ),
        routes_agree(
            base.enter_all(entries, to).routes,
            empty_side::<K, V, J>().load(entries, jk),
            route,
        ),
        forall|x: K| #[trigger]
            base.enter_all(entries, to).routes.contains_key(x) ==> base.enter_all(
                entries,
                to,
            ).routes[x] < count,
        forall|k: K| #[trigger]
            empty_side::<K, V, J>().load(entries, jk).rows.contains_key(k) ==> entry_keys(
                entries,
            ).contains(k),
    decreases entries.len(),
{
    let empty = empty_side::<K, V, J>();
    if entries.len() > 0 {
        let rest = entries.drop_last();
        let (k, v) = entries.last();
        assert(entry_keys(rest) =~= entry_keys(entries).drop_last());
        assert(entry_keys(rest).no_duplicates());
        follow_right_enter_all(start, base, rest, to, jk, route, count);
        let side = empty.load(rest, jk);
        crate::index::empty_side_wf::<K, V, J>(jk);
        empty.load_effect(rest, jk);
        assert(!entry_keys(rest).contains(k)) by {
            if entry_keys(rest).contains(k) {
                let i = choose|i: int| 0 <= i < rest.len() && entry_keys(rest)[i] == k;
                assert(entry_keys(entries)[i] == entry_keys(entries)[entries.len() - 1]);
            }
        }
        assert(!side.rows.contains_key(k));
        follow_right_enter(start, side, base.enter_all(rest, to), k, v, to, jk, route, count);
        assert forall|x: K| #[trigger] empty.load(entries, jk).rows.contains_key(x) implies entry_keys(
            entries,
        ).contains(x) by {
            assert(entry_keys(entries)[entries.len() - 1] == k);
            if x != k {
                assert(side.rows.contains_key(x));
                let i = choose|i: int| 0 <= i < rest.len() && entry_keys(rest)[i] == x;
                assert(entry_keys(entries)[i] == x);
            }
        }
    } else {
        assert(empty.load(entries, jk) == empty);
    }
}

/// One routed right change keeps each shard at its part, and the routes with the rows.
proof fn follow_right_step<K, V, J>(
    start: Side<K, V, J>,
    side: Side<K, V, J>,
    r: RightRouting<K, V>,
    change: Change<K, V>,
    to: spec_fn(K, V) -> Option<int>,
    jk: spec_fn(K, V) -> Option<J>,
    route: spec_fn(J) -> int,
    count: nat,
)
    requires
        side.wf(),
        side.admits(change),
        right_shards(to, jk, route, count),
        r.routed.len() == count,
        shards_follow(start, side, r.routed, jk, route),
        routes_agree(r.routes, side, route),
        forall|k: K| #[trigger] r.routes.contains_key(k) ==> r.routes[k] < count,
    ensures
        r.step(change, to).routed.len() == count,
        shards_follow(start, side.step(change, jk), r.step(change, to).routed, jk, route),
        routes_agree(r.step(change, to).routes, side.step(change, jk), route),
        forall|k: K| #[trigger]
            r.step(change, to).routes.contains_key(k) ==> r.step(change, to).routes[k] < count,
{
    let next = r.step(change, to);
    let after = side.step(change, jk);
    match change {
        Change::Initial { entries } => {
            follow_reset(start, r.routed, jk, route);
            let base = RightRouting::<K, V> { routes: Map::empty(), routed: send_reset(r.routed) };
            follow_right_enter_all(start, base, entries, to, jk, route, count);
        },
        Change::Insert { key, value } => {
            follow_right_enter(start, side, r, key, value, to, jk, route, count);
        },
        Change::Update { key, old_value, new_value } => {
            let _ = to(key, new_value);
            let _ = to(key, old_value);
            assert forall|s: int|
                #![trigger next.routed[s]]
                0 <= s < next.routed.len() implies part(start, route, s).run(next.routed[s], jk)
                == part(after, route, s) by {
                let _ = r.routed[s];
                follow_set(start, side, r.routed, jk, route, key, new_value, s);
                assert(part(side, route, s).rows.contains_key(key) ==> r.routes.contains_key(key)
                    && r.routes[key] as int == s);
            }
        },
        Change::Remove { key, old_value } => {
            let _ = to(key, old_value);
            assert forall|s: int|
                #![trigger next.routed[s]]
                0 <= s < next.routed.len() implies part(start, route, s).run(next.routed[s], jk)
                == part(after, route, s) by {
                let _ = r.routed[s];
                follow_drop(start, side, r.routed, jk, route, key, old_value, s);
                assert(part(side, route, s).rows.contains_key(key) ==> r.routes.contains_key(key)
                    && r.routes[key] as int == s);
            }
            if r.old_route(key, old_value, to) is None {
                assert(!side.rows.contains_key(key));
            }
        },
    }
}

/// Shards that follow the right changes routed to them hold their parts of the right side.
pub proof fn follow_right<K, V, J>(
    start: Side<K, V, J>,
    r: RightRouting<K, V>,
    steps: Seq<Change<K, V>>,
    to: spec_fn(K, V) -> Option<int>,
    jk: spec_fn(K, V) -> Option<J>,
    route: spec_fn(J) -> int,
    count: nat,
)
    requires
        start.wf(),
        start.admits_all(steps, jk),
        right_shards(to, jk, route, count),
        r.routed == no_routed::<K, V>(count),
        routes_agree(r.routes, start, route),
        forall|k: K| #[trigger] r.routes.contains_key(k) ==> r.routes[k] < count,
    ensures
        r.run(steps, to).routed.len() == count,
        shards_follow(start, start.run(steps, jk), r.run(steps, to).routed, jk, route),
        routes_agree(r.run(steps, to).routes, start.run(steps, jk), route),
        forall|k: K| #[trigger]
            r.run(steps, to).routes.contains_key(k) ==> r.run(steps, to).routes[k] < count,
    decreases steps.len(),
{
    if steps.len() > 0 {
        let rest = steps.drop_last();
        follow_right(start, r, rest, to, jk, route, count);
        start.run_effect(rest, jk);
        follow_right_step(
            start,
            start.run(rest, jk),
            r.run(rest, to),
            steps.last(),
            to,
            jk,
            route,
            count,
        );
    } else {
        assert forall|s: int|
            #![trigger r.routed[s]]
            0 <= s < r.routed.len() implies part(start, route, s).run(r.routed[s], jk) == part(
            start,
            route,
            s,
        ) by {}
    }
}

/// The join of the parts of a shard is the join as far as the shard is responsible for it.
pub proof fn joined_part<LK, LV, RK, RV, JK, OV>(
    left: Side<LK, LV, JK>,
    right: Side<RK, RV, JK>,
    project: spec_fn(LK, LV, Seq<(RK, RV)>) -> Option<OV>,
    route: spec_fn(JK) -> int,
    s: int,
    k: LK,
)
    requires
        left.wf(),
        right.wf(),
    ensures
        lookup(joined(part(left, route, s), part(right, route, s), project), k) == if left.rows.contains_key(
            k,
        ) && route(left.keys[k]) == s {
            lookup(joined(left, right, project), k)
        } else {
            None
        },
{
    joined_lookup(left, right, project, k);
    joined_lookup(part(left, route, s), part(right, route, s), project, k);
    part_wf(right, route, s);
    assert(left.rows.contains_key(k) == left.keys.contains_key(k));
    if left.rows.contains_key(k) && route(left.keys[k]) == s {
        assert(part(right, route, s).matches_of(left.keys[k]) == right.matches_of(left.keys[k]));
    }
}

} // verus!
