//! Putting changes of several shards back into one order.
use vstd::prelude::*;

use crate::delta::lookup_ext;
use crate::diff::{change_key, fits_all, replay, Change};
use crate::fx::lookup;

verus! {

/// The place of a change among others, compared from the first number on.
pub type Rank = (u64, u64, u64, u64);

/// One place comes before another.
pub open spec fn rank_before(a: Rank, b: Rank) -> bool {
    a.0 < b.0 || (a.0 == b.0 && (a.1 < b.1 || (a.1 == b.1 && (a.2 < b.2 || (a.2 == b.2 && a.3
        < b.3)))))
}

/// `order` names each place of a sequence of `n` once.
pub open spec fn is_order(order: Seq<int>, n: nat) -> bool {
    &&& order.len() == n
    &&& order.no_duplicates()
    &&& forall|i: int| 0 <= i < n ==> 0 <= #[trigger] order[i] < n
}

/// `after` holds the items of `before` in the order of their ranks; items of equal rank keep theirs.
pub open spec fn sorted_by<T>(
    before: Seq<(Rank, T)>,
    after: Seq<(Rank, T)>,
    order: Seq<int>,
) -> bool {
    &&& is_order(order, before.len())
    &&& after.len() == before.len()
    &&& forall|i: int| 0 <= i < after.len() ==> #[trigger] after[i] == before[order[i]]
    &&& forall|i: int, j: int|
        0 <= i < j < after.len() ==> rank_before(#[trigger] after[i].0, #[trigger] after[j].0) || (
        after[i].0 == after[j].0 && order[i] < order[j])
}

/// `slice::sort_by_key` on the rank: a stable sort.
#[verifier::external_body]
pub(crate) fn sort_ranked<T>(items: &mut Vec<(Rank, T)>)
    ensures
        exists|order: Seq<int>| #[trigger] sorted_by(old(items)@, final(items)@, order),
{
    items.sort_by_key(|item| item.0)
}

/// The last change of a key among the first `n`, if there is one.
pub open spec fn last_at<K, V>(steps: Seq<Change<K, V>>, k: K, n: int) -> int
    decreases n,
{
    if n <= 0 {
        -1
    } else if change_key(steps[n - 1]) == Some(k) {
        n - 1
    } else {
        last_at(steps, k, n - 1)
    }
}

/// What a change of one row leaves at its key.
pub open spec fn left_by<K, V>(change: Change<K, V>) -> Option<V> {
    match change {
        Change::Initial { entries } => None,
        Change::Insert { key, value } => Some(value),
        Change::Remove { key, old_value } => None,
        Change::Update { key, old_value, new_value } => Some(new_value),
    }
}

/// What is at a key after changes of single rows is what the last change of that key leaves.
pub proof fn replay_at<K, V>(m: Map<K, V>, steps: Seq<Change<K, V>>, k: K, n: int)
    requires
        0 <= n <= steps.len(),
        forall|i: int| 0 <= i < steps.len() ==> change_key(#[trigger] steps[i]) is Some,
    ensures
        -1 <= last_at(steps, k, n) < n,
        last_at(steps, k, n) >= 0 ==> change_key(steps[last_at(steps, k, n)]) == Some(k),
        forall|i: int| last_at(steps, k, n) < i < n ==> change_key(#[trigger] steps[i]) != Some(k),
        lookup(replay(m, steps.take(n)), k) == if last_at(steps, k, n) < 0 {
            lookup(m, k)
        } else {
            left_by(steps[last_at(steps, k, n)])
        },
    decreases n,
{
    if n > 0 {
        replay_at(m, steps, k, n - 1);
        assert(steps.take(n).drop_last() =~= steps.take(n - 1));
        assert(change_key(steps[n - 1]) is Some);
    } else {
        assert(steps.take(0) =~= Seq::empty());
    }
}

/// How changes of single rows take a key from one value to another: not at all, by one change, or
/// by a removal and a later insertion.
pub open spec fn leads_at<K, V>(
    steps: Seq<Change<K, V>>,
    k: K,
    before: Option<V>,
    after: Option<V>,
) -> bool {
    ||| (before == after && forall|i: int|
        0 <= i < steps.len() ==> change_key(#[trigger] steps[i]) != Some(k))
    ||| exists|i: int| #[trigger] leads_once(steps, k, before, after, i)
    ||| exists|i: int, j: int| #[trigger] leads_twice(steps, k, before, after, i, j)
}

/// The change at `i` is the only one of the key, and takes it from one value to another.
pub open spec fn leads_once<K, V>(
    steps: Seq<Change<K, V>>,
    k: K,
    before: Option<V>,
    after: Option<V>,
    i: int,
) -> bool {
    &&& 0 <= i < steps.len()
    &&& forall|n: int|
        0 <= n < steps.len() ==> (change_key(#[trigger] steps[n]) == Some(k) <==> n == i)
    &&& match (before, after) {
        (None, None) => false,
        (None, Some(v)) => steps[i] == (Change::Insert { key: k, value: v }),
        (Some(u), None) => steps[i] == (Change::Remove { key: k, old_value: u }),
        (Some(u), Some(v)) => steps[i] == (Change::Update { key: k, old_value: u, new_value: v }),
    }
}

/// The changes at `i` and `j` are the only ones of the key: a removal, then an insertion.
pub open spec fn leads_twice<K, V>(
    steps: Seq<Change<K, V>>,
    k: K,
    before: Option<V>,
    after: Option<V>,
    i: int,
    j: int,
) -> bool {
    &&& 0 <= i < j < steps.len()
    &&& forall|n: int|
        0 <= n < steps.len() ==> (change_key(#[trigger] steps[n]) == Some(k) <==> n == i || n == j)
    &&& before is Some && after is Some
    &&& steps[i] == (Change::Remove { key: k, old_value: before->Some_0 })
    &&& steps[j] == (Change::Insert { key: k, value: after->Some_0 })
}

/// Changes of single rows that take each key from what one map holds to what another holds fit the
/// first map and lead to the second, however the changes of different keys lie among each other.
pub proof fn leads_replays<K, V>(before: Map<K, V>, after: Map<K, V>, steps: Seq<Change<K, V>>)
    requires
        forall|i: int| 0 <= i < steps.len() ==> change_key(#[trigger] steps[i]) is Some,
        forall|k: K| #[trigger] leads_at(steps, k, lookup(before, k), lookup(after, k)),
    ensures
        fits_all(before, steps),
        replay(before, steps) == after,
{
    leads_fits(before, after, steps, steps.len() as int);
    assert(steps.take(steps.len() as int) =~= steps);
    assert forall|k: K| #[trigger] lookup(replay(before, steps), k) == lookup(after, k) by {
        replay_at(before, steps, k, steps.len() as int);
        let last = last_at(steps, k, steps.len() as int);
        assert(leads_at(steps, k, lookup(before, k), lookup(after, k)));
        if exists|i: int| #[trigger] leads_once(steps, k, lookup(before, k), lookup(after, k), i) {
            let i = choose|i: int| #[trigger]
                leads_once(steps, k, lookup(before, k), lookup(after, k), i);
            assert(change_key(steps[i]) == Some(k));
        } else if exists|i: int, j: int| #[trigger]
            leads_twice(steps, k, lookup(before, k), lookup(after, k), i, j) {
            let (i, j) = choose|i: int, j: int| #[trigger]
                leads_twice(steps, k, lookup(before, k), lookup(after, k), i, j);
            assert(change_key(steps[i]) == Some(k));
            assert(change_key(steps[j]) == Some(k));
        } else {
            if last >= 0 {
                assert(change_key(steps[last]) != Some(k));
            }
        }
    }
    lookup_ext(replay(before, steps), after);
}

proof fn leads_fits<K, V>(before: Map<K, V>, after: Map<K, V>, steps: Seq<Change<K, V>>, n: int)
    requires
        0 <= n <= steps.len(),
        forall|i: int| 0 <= i < steps.len() ==> change_key(#[trigger] steps[i]) is Some,
        forall|k: K| #[trigger] leads_at(steps, k, lookup(before, k), lookup(after, k)),
    ensures
        fits_all(before, steps.take(n)),
    decreases n,
{
    if n > 0 {
        leads_fits(before, after, steps, n - 1);
        assert(steps.take(n).drop_last() =~= steps.take(n - 1));
        assert(change_key(steps[n - 1]) is Some);
        let k = change_key(steps[n - 1])->Some_0;
        replay_at(before, steps, k, n - 1);
        let last = last_at(steps, k, n - 1);
        let b = lookup(before, k);
        let a = lookup(after, k);
        assert(leads_at(steps, k, b, a));
        if exists|i: int| #[trigger] leads_once(steps, k, b, a, i) {
            let i = choose|i: int| #[trigger] leads_once(steps, k, b, a, i);
            assert(i == n - 1);
            if last >= 0 {
                assert(change_key(steps[last]) == Some(k));
            }
        } else if exists|i: int, j: int| #[trigger] leads_twice(steps, k, b, a, i, j) {
            let (i, j) = choose|i: int, j: int| #[trigger] leads_twice(steps, k, b, a, i, j);
            assert(change_key(steps[i]) == Some(k) && change_key(steps[j]) == Some(k));
            assert(n - 1 == i || n - 1 == j);
            if n - 1 == i {
                if last >= 0 {
                    assert(change_key(steps[last]) == Some(k));
                }
            } else {
                assert(last == i) by {
                    if last != i {
                        if last < i {
                            assert(change_key(steps[i]) != Some(k));
                        } else {
                            assert(change_key(steps[last]) == Some(k));
                        }
                    }
                }
            }
        }
    }
}

} // verus!
