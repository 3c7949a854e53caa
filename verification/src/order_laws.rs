//! The orders in which rows come and are touched, the collisions that projections meet, and when work is
//! divided.
use vstd::prelude::*;

use crate::delta::{commit_change, delta, differing, piped};
use crate::diff::{change_key, replay, Change, DiffTree, MapDiff};
use crate::diff_laws::keys_in_place;
use crate::fx::{lists, lookup};
use crate::index::{entry_keys, without_contains, Side};
use crate::join_region::arrivals::{
    canon_keys, last_arrivals, live_run, live_step, ranked, sequenced,
};
use crate::join_region::router::{
    active_shards, change_number, largest_work, ordered_changes, told_as, wants_parallel,
};
use crate::join_region::stage_runtime::delta_shape;
use crate::join_region::trace::trace;
use crate::join_runtime::sharded::{
    merge_phase, merge_place, merge_rank, merges, pool_shards, shard_of, tagged,
};
use crate::join_runtime::state::{entry_joins, next_parallel, observed_step};
use crate::map_runtime::{
    claimant, claimed, claims, collision, emits, emitted_changes, event_keys, first_clash, owner_clash,
    source_order, OutputCollision,
};
use crate::match_order_laws::without_one;
use crate::merge::{is_order, rank_before, sorted_by, Rank};
use crate::ordered_set::{extend_new, kept, kept_contains, push_new};
use crate::parallel::WorkerPool;
use crate::stateless_runtime::{piped_tree, piped_trees};
use crate::value::CellValue;

verus! {

/// Elements put at the end of a sequence in turn: what was there stays where it is, and each element that
/// is not there yet when its turn comes goes to the end.
pub proof fn new_elements_in_turn<T>(s: Seq<T>, xs: Seq<T>, i: int)
    requires
        0 <= i < xs.len(),
    ensures
        extend_new(s, xs.take(0)) == s,
        extend_new(s, xs.take(i)).contains(xs[i]) ==> extend_new(s, xs.take(i + 1)) == extend_new(
            s,
            xs.take(i),
        ),
        !extend_new(s, xs.take(i)).contains(xs[i]) ==> extend_new(s, xs.take(i + 1)) == extend_new(
            s,
            xs.take(i),
        ).push(xs[i]),
        extend_new(s, xs.take(xs.len() as int)) == extend_new(s, xs),
{
    assert(xs.take(i + 1).drop_last() =~= xs.take(i));
    assert(xs.take(i + 1).last() == xs[i]);
    assert(xs.take(xs.len() as int) =~= xs);
    assert(xs.take(0) =~= Seq::empty());
}

/// Elements that are new to a sequence and distinct follow it in their own order.
pub proof fn new_elements_follow<T>(s: Seq<T>, xs: Seq<T>)
    requires
        xs.no_duplicates(),
        forall|x: T| xs.contains(x) ==> !s.contains(x),
    ensures
        extend_new(s, xs) == s + xs,
    decreases xs.len(),
{
    if xs.len() == 0 {
        assert(s + xs =~= s);
    } else {
        let rest = xs.drop_last();
        let x = xs.last();
        assert forall|y: T| rest.contains(y) implies !s.contains(y) by {
            let i = choose|i: int| 0 <= i < rest.len() && rest[i] == y;
            assert(xs[i] == y);
            assert(xs.contains(y));
        }
        new_elements_follow(s, rest);
        assert(xs[xs.len() - 1] == x);
        assert(xs.contains(x));
        assert(!(s + rest).contains(x)) by {
            if (s + rest).contains(x) {
                let i = choose|i: int| 0 <= i < (s + rest).len() && (s + rest)[i] == x;
                if i < s.len() {
                    assert(s[i] == x);
                } else {
                    assert(xs[i - s.len()] == x);
                }
            }
        }
        assert((s + rest).push(x) =~= s + xs);
    }
}

/// Keeping the elements of a set keeps them in their order.
pub proof fn kept_in_order<T>(s: Seq<T>, keep: Set<T>)
    ensures
        kept(s, keep) == s.filter(|x: T| keep.contains(x)),
    decreases s.len(),
{
    reveal(Seq::filter);
    if s.len() > 0 {
        kept_in_order(s.drop_last(), keep);
    } else {
        assert(kept(s, keep) =~= s.filter(|x: T| keep.contains(x)));
    }
}

proof fn last_arrivals_of_distinct<K, V>(entries: Seq<(K, V)>)
    requires
        entry_keys(entries).no_duplicates(),
    ensures
        last_arrivals(entries) == entry_keys(entries),
    decreases entries.len(),
{
    let names = entry_keys(entries);
    if entries.len() > 0 {
        let rest = entries.drop_last();
        assert(entry_keys(rest) =~= names.drop_last());
        last_arrivals_of_distinct(rest);
        let k = entries.last().0;
        assert(names[entries.len() - 1] == k);
        without_contains(entry_keys(rest), k);
        assert(!entry_keys(rest).contains(k)) by {
            if entry_keys(rest).contains(k) {
                let i = choose|i: int| 0 <= i < rest.len() && entry_keys(rest)[i] == k;
                assert(names[i] == k);
            }
        }
        assert(entry_keys(rest).push(k) =~= names);
    } else {
        assert(last_arrivals(entries) =~= names);
    }
}

/// The order in which rows came: a new row comes last, a row that changes stays where it is, a row that
/// goes leaves the others as they were, and a new beginning puts them in the order of its entries.
pub proof fn order_of_arrival<K, V>(live: Seq<K>, change: Change<K, V>, i: int)
    requires
        live.no_duplicates(),
    ensures
        match change {
            Change::Initial { entries } => entry_keys(entries).no_duplicates() ==> live_step(live, change)
                == Seq::new(entries.len(), |n: int| entries[n].0),
            Change::Insert { key, value } => !live.contains(key) ==> live_step(live, change)
                == live.push(key),
            Change::Remove { key, old_value } => {
                &&& 0 <= i < live.len() && live[i] == key ==> live_step(live, change) == live.remove(i)
                &&& !live.contains(key) ==> live_step(live, change) == live
            },
            Change::Update { key, old_value, new_value } => live.contains(key) ==> live_step(live, change)
                == live,
        },
{
    match change {
        Change::Initial { entries } => {
            if entry_keys(entries).no_duplicates() {
                last_arrivals_of_distinct(entries);
                keys_in_place(entries);
                assert(live_step(live, change) =~= Seq::new(entries.len(), |n: int| entries[n].0));
            }
        },
        Change::Remove { key, old_value } => {
            without_contains(live, key);
            if 0 <= i < live.len() && live[i] == key {
                without_one(live, i);
            }
        },
        _ => {},
    }
}

/// The order in which rows came follows changes in turn.
pub proof fn order_of_arrival_in_turn<K, V>(live: Seq<K>, steps: Seq<Change<K, V>>, i: int)
    requires
        0 <= i < steps.len(),
    ensures
        live_run(live, steps.take(0)) == live,
        live_run(live, steps.take(i + 1)) == live_step(live_run(live, steps.take(i)), steps[i]),
        live_run(live, steps.take(steps.len() as int)) == live_run(live, steps),
{
    assert(steps.take(i + 1).drop_last() =~= steps.take(i));
    assert(steps.take(i + 1).last() == steps[i]);
    assert(steps.take(steps.len() as int) =~= steps);
}

/// The rows that a change touches: the one that it names, or with a new beginning all that were there, in
/// the order in which they came, and then those of its entries that were not.
pub proof fn rows_that_a_change_touches<K, V>(live: Seq<K>, change: Change<K, V>)
    ensures
        match change {
            Change::Initial { entries } => {
                &&& entries.len() == 0 ==> canon_keys(live, change) == live
                &&& entries.len() > 0 && live.contains(entries.last().0) ==> canon_keys(live, change)
                    == canon_keys(live, Change::<K, V>::Initial { entries: entries.drop_last() })
                &&& entry_keys(entries).no_duplicates() && (forall|n: int|
                    0 <= n < entries.len() ==> !live.contains((#[trigger] entries[n]).0))
                    ==> canon_keys(live, change) == live + entry_keys(entries)
            },
            Change::Insert { key, value } => canon_keys(live, change) == seq![key],
            Change::Remove { key, old_value } => canon_keys(live, change) == seq![key],
            Change::Update { key, old_value, new_value } => canon_keys(live, change) == seq![key],
        },
{
    if let Change::Initial { entries } = change {
        let names = entry_keys(entries);
        if entries.len() == 0 {
            assert(names =~= Seq::empty());
        } else {
            assert(names.drop_last() =~= entry_keys(entries.drop_last()));
            assert(names.last() == entries.last().0);
            if live.contains(names.last()) {
                stays_in(live, names.drop_last(), names.last());
            }
        }
        if names.no_duplicates() && (forall|n: int|
            0 <= n < entries.len() ==> !live.contains((#[trigger] entries[n]).0)) {
            assert forall|x: K| names.contains(x) implies !live.contains(x) by {
                let n = choose|n: int| 0 <= n < names.len() && names[n] == x;
                assert(entries[n].0 == x);
            }
            new_elements_follow(live, names);
        }
    }
}

proof fn stays_in<T>(s: Seq<T>, xs: Seq<T>, x: T)
    requires
        s.contains(x),
    ensures
        extend_new(s, xs).contains(x),
    decreases xs.len(),
{
    if xs.len() > 0 {
        stays_in(s, xs.drop_last(), x);
        let mid = extend_new(s, xs.drop_last());
        let i = choose|i: int| 0 <= i < mid.len() && mid[i] == x;
        assert(push_new(mid, xs.last())[i] == x);
    }
}

/// The source rows that changes touch, in the order in which they touch them: each change names its row,
/// and a new beginning names the rows that there were, and then those of its entries.
pub proof fn touched_in_turn<SK, SV>(order: Seq<SK>, steps: Seq<Change<SK, SV>>, i: int)
    requires
        0 <= i < steps.len(),
    ensures
        event_keys(order, steps.take(0), Seq::empty()).len() == 0,
        event_keys(order, steps.take(i + 1), Seq::empty()) == (match steps[i] {
            Change::Initial { entries } => extend_new(
                event_keys(order, steps.take(i), Seq::empty()),
                source_order(order, steps.take(i)) + Seq::new(
                    entries.len(),
                    |n: int| entries[n].0,
                ),
            ),
            Change::Insert { key, value } => extend_new(
                event_keys(order, steps.take(i), Seq::empty()),
                seq![key],
            ),
            Change::Remove { key, old_value } => extend_new(
                event_keys(order, steps.take(i), Seq::empty()),
                seq![key],
            ),
            Change::Update { key, old_value, new_value } => extend_new(
                event_keys(order, steps.take(i), Seq::empty()),
                seq![key],
            ),
        }),
        event_keys(order, steps.take(steps.len() as int), Seq::empty()) == event_keys(
            order,
            steps,
            Seq::empty(),
        ),
{
    let part = steps.take(i + 1);
    let rest = steps.take(i);
    assert(part.drop_last() =~= rest);
    assert(part.last() == steps[i]);
    assert(steps.take(steps.len() as int) =~= steps);
    assert(steps.take(0) =~= Seq::empty());
    let sofar = event_keys(order, rest, Seq::empty());
    match steps[i] {
        Change::Initial { entries } => {
            keys_in_place(entries);
            assert(entry_keys(entries) =~= Seq::new(entries.len(), |n: int| entries[n].0));
            crate::ordered_set::extend_new_concat(
                sofar,
                source_order(order, rest),
                entry_keys(entries),
            );
        },
        Change::Insert { key, value } => one_new(sofar, key),
        Change::Remove { key, old_value } => one_new(sofar, key),
        Change::Update { key, old_value, new_value } => one_new(sofar, key),
    }
}

proof fn one_new<T>(s: Seq<T>, x: T)
    ensures
        extend_new(s, seq![x]) == push_new(s, x),
{
    assert(seq![x].drop_last() =~= Seq::empty());
    assert(extend_new(s, seq![x].drop_last()) == s);
}

/// The claims of source rows on output keys: those of each source row in turn, one for each row that it
/// gives, in order.
pub proof fn claims_in_turn<SK, OK, OV>(keys: Seq<SK>, rows: spec_fn(SK) -> Seq<(OK, OV)>, i: int)
    requires
        0 <= i < keys.len(),
    ensures
        claims(keys.take(0), rows).len() == 0,
        claims(keys.take(i + 1), rows) == claims(keys.take(i), rows) + Seq::new(
            rows(keys[i]).len(),
            |n: int| (keys[i], rows(keys[i])[n].0),
        ),
        claims(keys.take(keys.len() as int), rows) == claims(keys, rows),
{
    let part = keys.take(i + 1);
    assert(part.drop_last() =~= keys.take(i));
    assert(part.last() == keys[i]);
    assert(keys.take(keys.len() as int) =~= keys);
    keys_in_place(rows(keys[i]));
    assert(entry_keys(rows(keys[i])).map_values(|o: OK| (part.last(), o)) =~= Seq::new(
        rows(keys[i]).len(),
        |n: int| (keys[i], rows(keys[i])[n].0),
    ));
}

proof fn first_clash_found<SK, OK>(made: Seq<(SK, OK)>) -> (r: (int, int))
    ensures
        first_clash(made) is None ==> forall|i: int, j: int|
            0 <= i < j < made.len() ==> (#[trigger] made[i]).1 != (#[trigger] made[j]).1,
        first_clash(made) is Some ==> 0 <= r.0 < r.1 < made.len() && made[r.0].1 == made[r.1].1 && (
        forall|i: int, j: int|
            0 <= i < j < r.1 ==> (#[trigger] made[i]).1 != (#[trigger] made[j]).1) && first_clash(made)
            == Some(
            if made[r.0].0 == made[r.1].0 {
                OutputCollision::WithinSourceRow
            } else {
                OutputCollision::AcrossSourceRows
            },
        ),
    decreases made.len(),
{
    if made.len() == 0 {
        (0, 0)
    } else {
        let rest = made.drop_last();
        let r = first_clash_found(rest);
        let n = made.len() - 1;
        assert forall|i: int| 0 <= i < n implies rest[i] == made[i] by {}
        if first_clash(rest) is Some {
            assert forall|i: int, j: int| 0 <= i < j < r.1 implies (#[trigger] made[i]).1 != (
            #[trigger] made[j]).1 by {
                assert(rest[i].1 != rest[j].1);
            }
            r
        } else if claimed(rest, made.last().1) {
            let i = choose|i: int| 0 <= i < rest.len() && (#[trigger] rest[i]).1 == made.last().1;
            assert(claimant(rest, made.last().1) == rest[i].0);
            assert forall|a: int, b: int| 0 <= a < b < n implies (#[trigger] made[a]).1 != (
            #[trigger] made[b]).1 by {
                assert(rest[a].1 != rest[b].1);
            }
            (i, n)
        } else {
            assert forall|a: int, b: int| 0 <= a < b < made.len() implies (#[trigger] made[a]).1 != (
            #[trigger] made[b]).1 by {
                if b < n {
                    assert(rest[a].1 != rest[b].1);
                } else {
                    assert(rest[a].1 == made[a].1);
                }
            }
            (0, 0)
        }
    }
}

/// Which collision a projection meets: where the rows that an event is to give claim an output key twice,
/// the first second claim decides, which is within one source row or across two; where they do not, but
/// claim one that belongs to a source row that the event does not touch, it is with that row; and
/// else there is none.
pub proof fn which_collision<SK, OK, OV>(
    keys: Seq<SK>,
    rows: spec_fn(SK) -> Seq<(OK, OV)>,
    owners: Map<OK, SK>,
) -> (r: (int, int))
    ensures
        collision(keys, rows, owners) is None || collision(keys, rows, owners) == Some(
            OutputCollision::ExistingSourceRow,
        ) <==> forall|i: int, j: int|
            0 <= i < j < claims(keys, rows).len() ==> (#[trigger] claims(keys, rows)[i]).1 != (
            #[trigger] claims(keys, rows)[j]).1,
        collision(keys, rows, owners) matches Some(c) ==> (c != OutputCollision::ExistingSourceRow ==> {
            &&& 0 <= r.0 < r.1 < claims(keys, rows).len()
            &&& claims(keys, rows)[r.0].1 == claims(keys, rows)[r.1].1
            &&& forall|i: int, j: int|
                0 <= i < j < r.1 ==> (#[trigger] claims(keys, rows)[i]).1 != (
                #[trigger] claims(keys, rows)[j]).1
            &&& c == OutputCollision::WithinSourceRow <==> claims(keys, rows)[r.0].0 == claims(
                keys,
                rows,
            )[r.1].0
        }),
        collision(keys, rows, owners) is None ==> forall|i: int|
            0 <= i < claims(keys, rows).len() ==> !owners.contains_key((#[trigger] claims(keys, rows)[i]).1)
                || owners[claims(keys, rows)[i].1] == claims(keys, rows)[i].0 || keys.contains(
                owners[claims(keys, rows)[i].1],
            ),
        collision(keys, rows, owners) == Some(OutputCollision::ExistingSourceRow) ==> exists|i: int|
            0 <= i < claims(keys, rows).len() && owners.contains_key(
                (#[trigger] claims(keys, rows)[i]).1,
            ) && owners[claims(keys, rows)[i].1] != claims(keys, rows)[i].0 && !keys.contains(
                owners[claims(keys, rows)[i].1],
            ),
{
    let made = claims(keys, rows);
    let _ = owner_clash(made, owners, keys);
    first_clash_found(made)
}

/// A join computes on the worker pool from this much work on, and goes on until there is much less.
pub proof fn when_joins_use_the_pool(active: bool, work: usize)
    ensures
        work >= 65_536 ==> next_parallel(active, work),
        work < 49_152 ==> !next_parallel(active, work),
        49_152 <= work < 65_536 ==> next_parallel(active, work) == active,
{
}

/// The largest work of a shard is that of one of them, and none has more.
pub proof fn largest_of_all(works: Seq<usize>)
    ensures
        forall|i: int| 0 <= i < works.len() ==> #[trigger] works[i] <= largest_work(works),
        works.len() > 0 ==> works.contains(largest_work(works)),
        works.len() == 0 ==> largest_work(works) == 0,
    decreases works.len(),
{
    if works.len() > 0 {
        let rest = works.drop_last();
        largest_of_all(rest);
        assert forall|i: int| 0 <= i < works.len() implies #[trigger] works[i] <= largest_work(works) by {
            if i < rest.len() {
                assert(rest[i] == works[i]);
            }
        }
        if largest_work(rest) < works.last() || rest.len() == 0 {
            assert(works[works.len() - 1] == works.last());
        } else {
            let i = choose|i: int| 0 <= i < rest.len() && rest[i] == largest_work(rest);
            assert(works[i] == largest_work(works));
        }
    }
}

/// The shards that have work.
pub proof fn shards_with_work(works: Seq<usize>)
    ensures
        active_shards(works) == works.filter(|w: usize| w > 0).len(),
    decreases works.len(),
{
    reveal(Seq::filter);
    if works.len() > 0 {
        shards_with_work(works.drop_last());
    }
}

/// A region works in parallel where the estimated work is large, more than one shard has some, and no
/// shard has more than three quarters of it; it goes on until the estimated work is much less.
pub proof fn when_regions_work_in_parallel(
    active: bool,
    estimated: usize,
    work: usize,
    works: Seq<usize>,
)
    requires
        work as nat * 3 <= usize::MAX,
        largest_work(works) as nat * 4 <= usize::MAX,
    ensures
        wants_parallel(active, estimated, work, works) <==> (estimated >= 200_000 || (active && estimated
            >= 96_000)) && active_shards(works) > 1 && 4 * largest_work(works) <= 3 * work,
{
}

/// A pool has one shard for each of its threads, and there is one without a pool.
pub proof fn shards_of_a_pool(pool: WorkerPool)
    ensures
        pool_shards(None) == 1,
        pool.threads() >= 1 ==> pool_shards(Some(&pool)) == pool.threads(),
        pool.threads() == 0 ==> pool_shards(Some(&pool)) == 1,
{
}

/// The shard for a hash code is one of the shards, and codes that differ by the number of shards have the
/// same one.
pub proof fn shard_of_a_code(code: int, count: usize)
    requires
        code >= 0,
        count >= 1,
    ensures
        0 <= shard_of(code, count) < count,
        code < count ==> shard_of(code, count) == code,
        shard_of(code + count, count) == shard_of(code, count),
{
    if count > 1 {
        vstd::arithmetic::div_mod::lemma_mod_add_multiples_vanish(code, count as int);
        if code < count {
            vstd::arithmetic::div_mod::lemma_small_mod(code as nat, count as nat);
        }
    }
}

/// Changes are merged in phases: a new beginning first, then what goes, then what changes, then what
/// comes.
pub proof fn phases_of_a_merge<K, V>(entries: Seq<(K, V)>, key: K, old_value: V, new_value: V)
    ensures
        merge_phase(Change::Initial { entries }) < merge_phase(Change::Remove { key, old_value }),
        merge_phase(Change::Remove { key, old_value }) < merge_phase(
            Change::Update { key, old_value, new_value },
        ),
        merge_phase(Change::Update { key, old_value, new_value }) < merge_phase(
            Change::Insert { key, value: new_value },
        ),
{
}

/// One of several shards tells a change.
pub open spec fn told_by_a_shard<C>(shards: Seq<Seq<C>>, change: C) -> bool {
    exists|s: int, l: int|
        0 <= s < shards.len() && 0 <= l < shards[s].len() && #[trigger] shards[s][l] == change
}

spec fn ranked_as_told<K, V>(
    shards: Seq<Seq<Change<K, V>>>,
    place: spec_fn(K) -> u64,
    item: (Rank, Change<K, V>),
) -> bool {
    exists|s: int, l: int|
        0 <= s < shards.len() && 0 <= l < shards[s].len() && item == (
            merge_rank(place, #[trigger] shards[s][l], l),
            shards[s][l],
        )
}

proof fn tagged_total<K, V>(shards: Seq<Seq<Change<K, V>>>, place: spec_fn(K) -> u64)
    ensures
        forall|t: int|
            0 <= t < tagged(shards, place).len() ==> ranked_as_told(
                shards,
                place,
                #[trigger] tagged(shards, place)[t],
            ),
        tagged(shards, place).len() == shards.flatten().len(),
    decreases shards.len(),
{
    shards.lemma_flatten_and_flatten_alt_are_equivalent();
    if shards.len() > 0 {
        let rest = shards.drop_last();
        tagged_total(rest, place);
        rest.lemma_flatten_and_flatten_alt_are_equivalent();
        let n = tagged(rest, place).len() as int;
        assert forall|t: int| 0 <= t < tagged(shards, place).len() implies ranked_as_told(
            shards,
            place,
            #[trigger] tagged(shards, place)[t],
        ) by {
            let item = tagged(shards, place)[t];
            if t < n {
                assert(item == tagged(rest, place)[t]);
                let (s, l) = choose|s: int, l: int|
                    0 <= s < rest.len() && 0 <= l < rest[s].len() && item == (
                        merge_rank(place, #[trigger] rest[s][l], l),
                        rest[s][l],
                    );
                assert(shards[s] == rest[s]);
                assert(item == (merge_rank(place, shards[s][l], l), shards[s][l]));
            } else {
                let s = shards.len() - 1;
                let l = t - n;
                assert(item == (merge_rank(place, shards[s][l], l), shards[s][l]));
            }
        }
    }
}

/// The changes of several shards in one order: there is one for each change of each shard; they come in
/// the order of the places of their keys, and of one key what goes comes before what changes, and that
/// before what comes.
pub proof fn merged_in_order<K, V>(
    shards: Seq<Seq<Change<K, V>>>,
    place: spec_fn(K) -> u64,
    merged: Seq<Change<K, V>>,
)
    requires
        merges(shards, place, merged),
    ensures
        merged.len() == shards.flatten().len(),
        forall|i: int|
            0 <= i < merged.len() ==> told_by_a_shard(shards, #[trigger] merged[i]),
        forall|i: int, j: int|
            0 <= i < j < merged.len() && change_key(#[trigger] merged[i]) is Some && change_key(
                #[trigger] merged[j],
            ) is Some ==> place(change_key(merged[i])->Some_0) <= place(change_key(merged[j])->Some_0),
        forall|i: int, j: int|
            0 <= i < j < merged.len() && change_key(#[trigger] merged[i]) == change_key(
                #[trigger] merged[j],
            ) ==> merge_phase(merged[i]) <= merge_phase(merged[j]),
{
    let all = tagged(shards, place);
    let (sorted, order) = choose|sorted: Seq<(Rank, Change<K, V>)>, order: Seq<int>| #[trigger]
        sorted_by(all, sorted, order) && merged == sorted.map_values(
            |e: (Rank, Change<K, V>)| e.1,
        );
    tagged_total(shards, place);
    assert forall|i: int| 0 <= i < merged.len() implies sorted[i].1 == #[trigger] merged[i]
        && told_by_a_shard(shards, merged[i]) && sorted[i].0.0 == (match change_key(merged[i]) {
        Some(k) => place(k),
        None => u64::MAX,
    }) && sorted[i].0.1 == merge_phase(merged[i]) by {
        let t = order[i];
        assert(sorted[i] == all[t]);
        assert(ranked_as_told(shards, place, all[t]));
        let (s, l) = choose|s: int, l: int|
            0 <= s < shards.len() && 0 <= l < shards[s].len() && all[t] == (
                merge_rank(place, #[trigger] shards[s][l], l),
                shards[s][l],
            );
        assert(shards[s][l] == merged[i]);
    }
    assert forall|i: int, j: int| 0 <= i < j < merged.len() && change_key(#[trigger] merged[i]) is Some
        && change_key(#[trigger] merged[j]) is Some implies place(change_key(merged[i])->Some_0) <= place(
        change_key(merged[j])->Some_0,
    ) by {
        assert(rank_before(sorted[i].0, sorted[j].0) || sorted[i].0 == sorted[j].0);
    }
    assert forall|i: int, j: int| 0 <= i < j < merged.len() && change_key(#[trigger] merged[i])
        == change_key(#[trigger] merged[j]) implies merge_phase(merged[i]) <= merge_phase(merged[j]) by {
        assert(rank_before(sorted[i].0, sorted[j].0) || sorted[i].0 == sorted[j].0);
    }
}

/// The place of a key in a merge is the one that the event gives it; without one, its place in the order
/// in which the rows came; and without that, the last.
pub proof fn places_of_a_merge<K>(ordinals: Map<K, u64>, sequence: Map<K, u64>, k: K)
    ensures
        ordinals.contains_key(k) ==> (merge_place(ordinals, sequence))(k) == ordinals[k],
        !ordinals.contains_key(k) && sequence.contains_key(k) ==> (merge_place(ordinals, sequence))(k)
            == sequence[k],
        !ordinals.contains_key(k) && !sequence.contains_key(k) ==> (merge_place(ordinals, sequence))(k)
            == u64::MAX,
{
}

/// A diff that is a batch is told as one batch of single changes, and another as single changes.
pub proof fn batches_are_told_as_batches<A: CellValue, B: CellValue, K: CellValue, O: CellValue>(
    diff: MapDiff<A, B>,
    told: Seq<MapDiff<K, O>>,
)
    requires
        told_as(&diff, told),
    ensures
        diff is Batch ==> told.len() == 1 && told[0] is Batch && forall|i: int|
            0 <= i < told[0]->changes@.len() ==> !((#[trigger] told[0]->changes@[i]) is Batch),
        !(diff is Batch) ==> forall|i: int| 0 <= i < told.len() ==> !((#[trigger] told[i]) is Batch),
{
}

/// What is emitted: nothing where there is nothing to tell, and else one batch of single changes that
/// tell it.
pub proof fn what_is_emitted<K: CellValue, V: CellValue>(
    emitted: Option<MapDiff<K, V>>,
    told: Seq<Change<K::Model, V::Model>>,
)
    requires
        emits(emitted, told),
    ensures
        emitted is None <==> told.len() == 0,
        emitted matches Some(diff) ==> diff is Batch && diff.steps() == told && forall|i: int|
            0 <= i < diff->changes@.len() ==> !((#[trigger] diff->changes@[i]) is Batch),
        emitted_changes(emitted) == told,
{
}

/// A projected batch keeps its shape: its members stay in order, each as what it becomes, without those
/// that become nothing; and a batch none of whose members becomes anything becomes nothing.
pub proof fn batches_keep_their_shape<K, V, U>(
    members: Seq<DiffTree<K, V>>,
    f: spec_fn(K, V) -> Option<U>,
    i: int,
)
    requires
        0 <= i < members.len(),
    ensures
        piped_trees(members.take(0), f).len() == 0,
        piped_tree(members[i], f) is None ==> piped_trees(members.take(i + 1), f) == piped_trees(
            members.take(i),
            f,
        ),
        piped_tree(members[i], f) is Some ==> piped_trees(members.take(i + 1), f) == piped_trees(
            members.take(i),
            f,
        ).push(piped_tree(members[i], f)->Some_0),
        piped_tree(DiffTree::Batch(members), f) is None <==> piped_trees(members, f).len() == 0,
        piped_trees(members, f).len() > 0 ==> piped_tree(DiffTree::Batch(members), f) == Some(
            DiffTree::Batch(piped_trees(members, f)),
        ),
{
    assert(members.take(i + 1).drop_last() =~= members.take(i));
    assert(members.take(i + 1).last() == members[i]);
}

/// The order of the source rows of a projection: a new row comes last, a row that changes stays where it
/// is, a row that goes leaves the others as they were, and a new beginning puts them in the order of
/// its entries.
pub proof fn order_of_source_rows<SK, SV>(
    order: Seq<SK>,
    steps: Seq<Change<SK, SV>>,
    change: Change<SK, SV>,
    i: int,
)
    requires
        source_order(order, steps).no_duplicates(),
    ensures
        match change {
            Change::Initial { entries } => entry_keys(entries).no_duplicates() ==> source_order(
                order,
                steps.push(change),
            ) == Seq::new(entries.len(), |n: int| entries[n].0),
            Change::Insert { key, value } => !source_order(order, steps).contains(key) ==> source_order(
                order,
                steps.push(change),
            ) == source_order(order, steps).push(key),
            Change::Remove { key, old_value } => 0 <= i < source_order(order, steps).len()
                && source_order(order, steps)[i] == key ==> source_order(order, steps.push(change))
                == source_order(order, steps).remove(i),
            Change::Update { key, old_value, new_value } => source_order(order, steps).contains(key)
                ==> source_order(order, steps.push(change)) == source_order(order, steps),
        },
{
    let before = source_order(order, steps);
    assert(steps.push(change).drop_last() =~= steps);
    match change {
        Change::Initial { entries } => {
            if entry_keys(entries).no_duplicates() {
                let names = entry_keys(entries);
                new_elements_follow(Seq::<SK>::empty(), names);
                assert(Seq::<SK>::empty() + names =~= names);
                keys_in_place(entries);
                assert(names =~= Seq::new(entries.len(), |n: int| entries[n].0));
            }
        },
        Change::Remove { key, old_value } => {
            if 0 <= i < before.len() && before[i] == key {
                without_one(before, i);
            }
        },
        _ => {},
    }
}

/// A change whose key has a number comes at that number, and one whose key has none comes last.
pub proof fn changes_without_a_number_come_last<K, V>(order: Map<K, u64>, change: Change<K, V>)
    ensures
        change_key(change) matches Some(k) ==> (order.contains_key(k) ==> change_number(order, change)
            == order[k]) && (!order.contains_key(k) ==> change_number(order, change) == u64::MAX),
{
}

/// Changes put into the order of the numbers of their keys: all of them, those with smaller numbers
/// first, and those with the same number as they were.
pub proof fn changes_in_order_of_numbers<K, V>(
    order: Map<K, u64>,
    before: Seq<Change<K, V>>,
    after: Seq<Change<K, V>>,
) -> (places: Seq<int>)
    requires
        ordered_changes(order, before, after),
    ensures
        after.len() == before.len(),
        places.len() == before.len(),
        places.no_duplicates(),
        forall|i: int|
            0 <= i < after.len() ==> 0 <= #[trigger] places[i] < before.len() && after[i]
                == before[places[i]],
        forall|i: int, j: int|
            0 <= i < j < after.len() ==> change_number(order, #[trigger] after[i]) <= change_number(
                order,
                #[trigger] after[j],
            ),
        forall|i: int, j: int|
            0 <= i < j < after.len() && change_number(order, #[trigger] after[i]) == change_number(
                order,
                #[trigger] after[j],
            ) ==> places[i] < places[j],
{
    choose|places: Seq<int>| #[trigger]
        is_order(places, before.len()) && after.len() == before.len() && (forall|i: int|
            0 <= i < after.len() ==> #[trigger] after[i] == before[places[i]]) && (forall|
            i: int,
            j: int,
        |
            0 <= i < j < after.len() ==> change_number(order, #[trigger] after[i]) < change_number(
                order,
                #[trigger] after[j],
            ) || (change_number(order, after[i]) == change_number(order, after[j]) && places[i]
                < places[j]))
}

/// The join keys whose rows change when a row is set: the one that the row had, and then the one that it
/// gets, each once.
pub proof fn join_keys_of_a_set_row<K, V, J>(side: Side<K, V, J>, k: K, join: Option<J>)
    ensures
        match (lookup(side.keys, k), join) {
            (None, None) => side.joins_of_set(k, join).len() == 0,
            (None, Some(j)) => side.joins_of_set(k, join) == seq![j],
            (Some(h), None) => side.joins_of_set(k, join) == seq![h],
            (Some(h), Some(j)) => if h == j {
                side.joins_of_set(k, join) == seq![j]
            } else {
                side.joins_of_set(k, join) == seq![h, j]
            },
        },
{
    match (lookup(side.keys, k), join) {
        (None, None) => {},
        (None, Some(j)) => {
            assert(side.joins_of_set(k, join) =~= seq![j]);
        },
        (Some(h), None) => {
            assert(side.joins_of_set(k, join) =~= seq![h]);
        },
        (Some(h), Some(j)) => {
            if h == j {
                assert(side.joins_of_set(k, join) =~= seq![j]);
            } else {
                assert(side.joins_of_set(k, join) =~= seq![h, j]);
            }
        },
    }
}

/// The rows of several join keys come join key by join key, those of one in the order in which they got
/// it.
pub proof fn rows_join_key_by_join_key<K, V, J>(side: Side<K, V, J>, joins: Seq<J>)
    requires
        side.wf(),
        joins.no_duplicates(),
    ensures
        side.extend_members(joins, Seq::empty()) == joins.map_values(
            |j: J| side.members_of(j),
        ).flatten(),
        forall|k: K| #[trigger]
            side.extend_members(joins, Seq::empty()).contains(k) <==> side.keys.contains_key(k)
                && joins.contains(side.keys[k]),
    decreases joins.len(),
{
    let parts = joins.map_values(|j: J| side.members_of(j));
    if joins.len() == 0 {
        assert(parts.flatten() =~= Seq::<K>::empty());
    } else {
        let rest = joins.drop_last();
        let j = joins.last();
        let some = rest.map_values(|i: J| side.members_of(i));
        rows_join_key_by_join_key(side, rest);
        let sofar = side.extend_members(rest, Seq::empty());
        let more = side.members_of(j);
        assert(parts =~= some.push(more));
        some.lemma_flatten_push(more);
        assert(joins[joins.len() - 1] == j);
        assert forall|k: K| more.contains(k) <==> side.keys.contains_key(k) && side.keys[k] == j by {
            assert(side.member(j, k) == (side.keys.contains_key(k) && side.keys[k] == j));
        }
        assert(!rest.contains(j)) by {
            if rest.contains(j) {
                let i = choose|i: int| 0 <= i < rest.len() && rest[i] == j;
                assert(joins[i] == j);
            }
        }
        assert(more.no_duplicates());
        new_elements_follow(sofar, more);
        assert forall|k: K| #[trigger] side.extend_members(joins, Seq::empty()).contains(k)
            <==> side.keys.contains_key(k) && joins.contains(side.keys[k]) by {
            let all = sofar + more;
            assert(all.contains(k) <==> sofar.contains(k) || more.contains(k)) by {
                if sofar.contains(k) {
                    let i = choose|i: int| 0 <= i < sofar.len() && sofar[i] == k;
                    assert(all[i] == k);
                }
                if more.contains(k) {
                    let i = choose|i: int| 0 <= i < more.len() && more[i] == k;
                    assert(all[sofar.len() + i] == k);
                }
                if all.contains(k) {
                    let i = choose|i: int| 0 <= i < all.len() && all[i] == k;
                    if i < sofar.len() {
                        assert(sofar[i] == k);
                    } else {
                        assert(more[i - sofar.len()] == k);
                    }
                }
            }
            assert forall|x: J| joins.contains(x) <==> rest.contains(x) || x == j by {
                if rest.contains(x) {
                    let i = choose|i: int| 0 <= i < rest.len() && rest[i] == x;
                    assert(joins[i] == x);
                }
                if joins.contains(x) {
                    let i = choose|i: int| 0 <= i < joins.len() && joins[i] == x;
                    if i < rest.len() {
                        assert(rest[i] == x);
                    }
                }
            }
        }
    }
}

/// The join keys that a change of the right rows names: that of the row which comes or goes, of a row
/// that changes the one it had and the one it gets, and of a new beginning those of its entries.
pub proof fn join_keys_that_a_change_names<RK, RV, JK>(
    change: Change<RK, RV>,
    jk: spec_fn(RK, RV) -> Option<JK>,
    j: JK,
)
    ensures
        observed_step(change, jk).contains(j) == (match change {
            Change::Initial { entries } => exists|i: int|
                0 <= i < entries.len() && jk((#[trigger] entries[i]).0, entries[i].1) == Some(j),
            Change::Insert { key, value } => jk(key, value) == Some(j),
            Change::Remove { key, old_value } => jk(key, old_value) == Some(j),
            Change::Update { key, old_value, new_value } => jk(key, old_value) == Some(j) || jk(
                key,
                new_value,
            ) == Some(j),
        }),
{
    match change {
        Change::Initial { entries } => join_keys_of_entries(entries, jk, j),
        Change::Insert { key, value } => {
            if jk(key, value) == Some(j) {
                assert(observed_step(change, jk)[0] == j);
            }
        },
        Change::Remove { key, old_value } => {
            if jk(key, old_value) == Some(j) {
                assert(observed_step(change, jk)[0] == j);
            }
        },
        Change::Update { key, old_value, new_value } => {
            let named = observed_step(change, jk);
            if jk(key, old_value) == Some(j) {
                assert(named[0] == j);
            }
            if jk(key, new_value) == Some(j) {
                assert(named[named.len() - 1] == j);
            }
        },
    }
}

proof fn join_keys_of_entries<RK, RV, JK>(
    entries: Seq<(RK, RV)>,
    jk: spec_fn(RK, RV) -> Option<JK>,
    j: JK,
)
    ensures
        entry_joins(entries, jk).contains(j) == exists|i: int|
            0 <= i < entries.len() && jk((#[trigger] entries[i]).0, entries[i].1) == Some(j),
    decreases entries.len(),
{
    if entries.len() > 0 {
        let rest = entries.drop_last();
        join_keys_of_entries(rest, jk, j);
        let sofar = entry_joins(rest, jk);
        let all = entry_joins(entries, jk);
        let last = jk(entries.last().0, entries.last().1);
        if sofar.contains(j) {
            let n = choose|n: int| 0 <= n < sofar.len() && sofar[n] == j;
            assert(all[n] == j);
            let i = choose|i: int| 0 <= i < rest.len() && jk((#[trigger] rest[i]).0, rest[i].1) == Some(j);
            assert(entries[i] == rest[i]);
        }
        if last == Some(j) {
            assert(all[all.len() - 1] == j);
            assert(entries[entries.len() - 1] == entries.last());
        }
        if all.contains(j) && !sofar.contains(j) {
            let n = choose|n: int| 0 <= n < all.len() && all[n] == j;
            if n < sofar.len() {
                assert(sofar[n] == j);
            }
            assert(last == Some(j));
        }
        if exists|i: int| 0 <= i < entries.len() && jk((#[trigger] entries[i]).0, entries[i].1) == Some(j) {
            let i = choose|i: int|
                0 <= i < entries.len() && jk((#[trigger] entries[i]).0, entries[i].1) == Some(j);
            if i < rest.len() {
                assert(rest[i] == entries[i]);
            }
        }
    }
}

/// Of one change of the left rows a region tells at most one change for each row, in the order in which
/// the change touches them: those of the rows for which something else comes out than before, and from
/// what came out before to what comes out then.
pub proof fn left_change_told_in_order<K, V, O>(
    rows: Map<K, V>,
    live: Seq<K>,
    steps: Seq<Change<K, V>>,
    change: Change<K, V>,
    f: spec_fn(K, V) -> Option<O>,
) -> (told: Seq<Change<K, O>>)
    requires
        live_run(live, steps).no_duplicates(),
    ensures
        trace(rows, live, steps.push(change), f) == trace(rows, live, steps, f) + told,
        told.len() == canon_keys(live_run(live, steps), change).filter(
            |k: K|
                lookup(piped(replay(rows, steps), f), k) != lookup(
                    piped(replay(rows, steps.push(change)), f),
                    k,
                ),
        ).len(),
        forall|i: int|
            0 <= i < told.len() ==> change_key(#[trigger] told[i]) == Some(
                canon_keys(live_run(live, steps), change).filter(
                    |k: K|
                        lookup(piped(replay(rows, steps), f), k) != lookup(
                            piped(replay(rows, steps.push(change)), f),
                            k,
                        ),
                )[i],
            ),
        forall|i: int|
            0 <= i < told.len() ==> match #[trigger] told[i] {
                Change::Initial { entries } => false,
                Change::Insert { key, value } => lookup(piped(replay(rows, steps), f), key) is None
                    && lookup(piped(replay(rows, steps.push(change)), f), key) == Some(value),
                Change::Remove { key, old_value } => lookup(piped(replay(rows, steps), f), key) == Some(
                    old_value,
                ) && lookup(piped(replay(rows, steps.push(change)), f), key) is None,
                Change::Update { key, old_value, new_value } => lookup(
                    piped(replay(rows, steps), f),
                    key,
                ) == Some(old_value) && lookup(piped(replay(rows, steps.push(change)), f), key) == Some(
                    new_value,
                ),
            },
{
    let all = steps.push(change);
    assert(all.drop_last() =~= steps);
    let before = piped(replay(rows, steps), f);
    let after = piped(replay(rows, all), f);
    let keys = canon_keys(live_run(live, steps), change);
    let told = delta(before, keys, after);
    assert(keys.no_duplicates()) by {
        if let Change::Initial { entries } = change {
            crate::ordered_set::extend_new_contains(live_run(live, steps), entry_keys(entries));
        }
    }
    delta_shape(before, keys, after);
    let moved = kept(keys, differing(before, after));
    kept_in_order(keys, differing(before, after));
    assert((|k: K| differing(before, after).contains(k)) =~= (|k: K|
        lookup(before, k) != lookup(after, k))) by {
        assert forall|k: K| differing(before, after).contains(k) == (lookup(before, k) != lookup(after, k)) by {}
    }
    kept_contains(keys, differing(before, after));
    assert forall|i: int| 0 <= i < told.len() implies change_key(#[trigger] told[i]) == Some(moved[i])
        && match told[i] {
        Change::Initial { entries } => false,
        Change::Insert { key, value } => lookup(before, key) is None && lookup(after, key) == Some(value),
        Change::Remove { key, old_value } => lookup(before, key) == Some(old_value) && lookup(
            after,
            key,
        ) is None,
        Change::Update { key, old_value, new_value } => lookup(before, key) == Some(old_value) && lookup(
            after,
            key,
        ) == Some(new_value),
    } by {
        let one = commit_change(moved[i], lookup(before, moved[i]), lookup(after, moved[i]));
        assert(seq![told[i]] == one);
        assert(one[0] == told[i]);
        assert(moved.contains(moved[i]));
        assert(differing(before, after).contains(moved[i]));
    }
    told
}

/// Keys that have their places as numbers: each has the number of keys before it, and no other key has a
/// number.
pub proof fn numbers_are_places<K>(numbers: Map<K, u64>, keys: Seq<K>)
    requires
        ranked(numbers, keys),
    ensures
        forall|i: int|
            0 <= i < keys.len() ==> numbers.contains_key(#[trigger] keys[i]) && numbers[keys[i]] == i,
        forall|k: K| #[trigger] numbers.contains_key(k) ==> keys.contains(k),
        forall|i: int, j: int| 0 <= i < j < keys.len() ==> #[trigger] keys[i] != #[trigger] keys[j],
{
    assert forall|i: int| 0 <= i < keys.len() implies numbers.contains_key(#[trigger] keys[i])
        && numbers[keys[i]] == i by {
        assert(keys.contains(keys[i]));
    }
}

/// Keys in the order in which they came have growing numbers, all below the next.
pub proof fn numbers_grow<K>(numbers: Map<K, u64>, next: u64, live: Seq<K>)
    requires
        sequenced(numbers, next, live),
    ensures
        forall|i: int, j: int|
            0 <= i < j < live.len() ==> numbers[#[trigger] live[i]] < numbers[#[trigger] live[j]],
        forall|i: int| 0 <= i < live.len() ==> numbers.contains_key(#[trigger] live[i])
            && numbers[live[i]] < next,
        forall|k: K| #[trigger] numbers.contains_key(k) ==> live.contains(k),
{
    assert forall|i: int| 0 <= i < live.len() implies numbers.contains_key(#[trigger] live[i])
        && numbers[live[i]] < next by {
        assert(live.contains(live[i]));
    }
}

/// What lists a set names each of its elements, each once, and nothing else.
pub proof fn listed_once<K>(s: Seq<K>, set: Set<K>)
    requires
        lists(s, set),
    ensures
        forall|i: int| 0 <= i < s.len() ==> set.contains(#[trigger] s[i]),
        forall|i: int, j: int| 0 <= i < j < s.len() ==> #[trigger] s[i] != #[trigger] s[j],
        forall|k: K| #[trigger] set.contains(k) ==> exists|i: int| 0 <= i < s.len() && s[i] == k,
{
    assert forall|i: int| 0 <= i < s.len() implies set.contains(#[trigger] s[i]) by {
        assert(s.contains(s[i]));
    }
    assert forall|k: K| #[trigger] set.contains(k) implies exists|i: int| 0 <= i < s.len() && s[i] == k by {
        assert(s.contains(k));
    }
}

/// The left rows that changes touch, in the order in which they touch them first: `mid` are those of the
/// changes before the last, which stay where they are; the row that the last one names comes behind
/// them, unless it is among them; and a new beginning names `dropped`, the rows that were there, each
/// once, and then those of its entries.
pub proof fn left_rows_touched_in_turn<K, V, J>(
    side: Side<K, V, J>,
    steps: Seq<Change<K, V>>,
    change: Change<K, V>,
    jk: spec_fn(K, V) -> Option<J>,
    from: Seq<K>,
    to: Seq<K>,
) -> (r: (Seq<K>, Seq<K>))
    requires
        side.keys_run(steps.push(change), jk, from, to),
    ensures
        side.keys_run(steps, jk, from, r.0),
        steps.len() == 0 ==> r.0 == from,
        match change {
            Change::Initial { entries } => lists(r.1, side.run(steps, jk).rows.dom()) && to == extend_new(
                extend_new(r.0, r.1),
                Seq::new(entries.len(), |n: int| entries[n].0),
            ),
            Change::Insert { key, value } => (r.0.contains(key) ==> to == r.0) && (!r.0.contains(key) ==> to
                == r.0.push(key)),
            Change::Remove { key, old_value } => if side.run(steps, jk).rows.contains_key(key)
                && !r.0.contains(key) {
                to == r.0.push(key)
            } else {
                to == r.0
            },
            Change::Update { key, old_value, new_value } => (r.0.contains(key) ==> to == r.0) && (
            !r.0.contains(key) ==> to == r.0.push(key)),
        },
{
    let all = steps.push(change);
    assert(all.drop_last() =~= steps);
    let mid = choose|mid: Seq<K>|
        side.keys_run(all.drop_last(), jk, from, mid) && #[trigger] side.run(
            all.drop_last(),
            jk,
        ).keys_step(all.last(), mid, to);
    if let Change::Initial { entries } = change {
        keys_in_place(entries);
        assert(entry_keys(entries) =~= Seq::new(entries.len(), |n: int| entries[n].0));
        let dropped = choose|dropped: Seq<K>| #[trigger]
            lists(dropped, side.run(steps, jk).rows.dom()) && to == extend_new(
                extend_new(mid, dropped),
                entry_keys(entries),
            );
        (mid, dropped)
    } else {
        (mid, Seq::empty())
    }
}

/// The join keys whose rows changes change, in the order in which they change them first: `mid` are those
/// of the changes before the last, which stay where they are, and behind them come the ones that the
/// row of the last one had and gets.
pub proof fn join_keys_touched_in_turn<K, V, J>(
    side: Side<K, V, J>,
    steps: Seq<Change<K, V>>,
    change: Change<K, V>,
    jk: spec_fn(K, V) -> Option<J>,
    from: Seq<J>,
    to: Seq<J>,
) -> (mid: Seq<J>)
    requires
        side.joins_run(steps.push(change), jk, from, to),
        change_key(change) is Some,
    ensures
        side.joins_run(steps, jk, from, mid),
        steps.len() == 0 ==> mid == from,
        to == extend_new(
            mid,
            side.run(steps, jk).joins_of_set(
                change_key(change)->Some_0,
                match change {
                    Change::Insert { key, value } => jk(key, value),
                    Change::Update { key, old_value, new_value } => jk(key, new_value),
                    _ => None,
                },
            ),
        ),
{
    let all = steps.push(change);
    assert(all.drop_last() =~= steps);
    choose|mid: Seq<J>|
        side.joins_run(all.drop_last(), jk, from, mid) && #[trigger] side.run(
            all.drop_last(),
            jk,
        ).joins_step(all.last(), jk, mid, to)
}

} // verus!
