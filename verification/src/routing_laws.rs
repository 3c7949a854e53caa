//! The places that left rows take when the changes of an event are routed to shards.
use vstd::prelude::*;

use crate::diff::{change_key, Change};
use crate::index::entry_keys;
use crate::join_region::arrivals::names_first;
use crate::join_runtime::sharded::LeftRouting;

verus! {

/// In an event without a new beginning each row that the event names takes the place of the first
/// change that names it, and no other row takes a place.
pub proof fn places_in_an_event<K, V>(
    begin: LeftRouting<K, V>,
    steps: Seq<Change<K, V>>,
    to: spec_fn(K, V) -> int,
)
    requires
        begin.ordinals == Map::<K, u64>::empty(),
        steps.len() <= u64::MAX,
        forall|i: int| 0 <= i < steps.len() ==> change_key(#[trigger] steps[i]) is Some,
    ensures
        forall|k: K, i: int| #[trigger]
            names_first(steps, k, i) ==> begin.run(steps, to).ordinals.contains_key(k) && begin.run(
                steps,
                to,
            ).ordinals[k] == i,
        forall|k: K| #[trigger]
            begin.run(steps, to).ordinals.contains_key(k) ==> exists|i: int| names_first(steps, k, i),
    decreases steps.len(),
{
    if steps.len() > 0 {
        let rest = steps.drop_last();
        let n = steps.len() - 1;
        places_in_an_event(begin, rest, to);
        let mid = begin.run(rest, to);
        let after = begin.run(steps, to);
        let last = change_key(steps[n])->Some_0;
        assert(steps.last() == steps[n]);
        assert forall|k: K, i: int| i < n && names_first(steps, k, i) implies #[trigger] names_first(
            rest,
            k,
            i,
        ) by {
            assert forall|j: int| 0 <= j < i implies change_key(#[trigger] rest[j]) != Some(k) by {
                assert(rest[j] == steps[j]);
            }
        }
        assert forall|k: K, i: int| #[trigger] names_first(steps, k, i) implies after.ordinals.contains_key(
            k,
        ) && after.ordinals[k] == i by {
            if i < n {
                assert(names_first(rest, k, i));
            } else {
                assert(k == last);
                if mid.ordinals.contains_key(k) {
                    let j = choose|j: int| names_first(rest, k, j);
                    assert(names_first(rest, k, j));
                    assert(rest[j] == steps[j]);
                }
            }
        }
        assert forall|k: K| #[trigger] after.ordinals.contains_key(k) implies exists|i: int|
            names_first(steps, k, i) by {
            if mid.ordinals.contains_key(k) {
                let i = choose|i: int| names_first(rest, k, i);
                assert forall|j: int| 0 <= j < i implies change_key(#[trigger] steps[j]) != Some(k) by {
                    assert(rest[j] == steps[j]);
                }
                assert(names_first(steps, k, i));
            } else {
                assert(k == last);
                assert forall|j: int| 0 <= j < n implies change_key(#[trigger] steps[j]) != Some(k) by {
                    if change_key(steps[j]) == Some(k) {
                        assert(rest[j] == steps[j]);
                        let i = first_in(rest, k, j);
                        assert(names_first(rest, k, i));
                    }
                }
                assert(names_first(steps, k, n));
            }
        }
    }
}

proof fn first_in<K, V>(steps: Seq<Change<K, V>>, k: K, j: int) -> (i: int)
    requires
        0 <= j < steps.len(),
        change_key(steps[j]) == Some(k),
    ensures
        names_first(steps, k, i),
    decreases j,
{
    if exists|n: int| 0 <= n < j && change_key(#[trigger] steps[n]) == Some(k) {
        let n = choose|n: int| 0 <= n < j && change_key(#[trigger] steps[n]) == Some(k);
        first_in(steps, k, n)
    } else {
        j
    }
}

proof fn entered_in_order<K, V>(
    begin: LeftRouting<K, V>,
    entries: Seq<(K, V)>,
    to: spec_fn(K, V) -> int,
)
    requires
        begin.next == 0,
        entries.len() <= u64::MAX,
        entry_keys(entries).no_duplicates(),
    ensures
        begin.enter_all(entries, to).next == entries.len(),
        forall|i: int|
            0 <= i < entries.len() ==> {
                let k = (#[trigger] entries[i]).0;
                &&& begin.enter_all(entries, to).ordinals.contains_key(k)
                &&& begin.enter_all(entries, to).ordinals[k] == i
                &&& begin.enter_all(entries, to).sequence.contains_key(k)
                &&& begin.enter_all(entries, to).sequence[k] == i
            },
    decreases entries.len(),
{
    if entries.len() > 0 {
        let rest = entries.drop_last();
        let names = entry_keys(entries);
        assert(entry_keys(rest) =~= names.drop_last());
        entered_in_order(begin, rest, to);
        let n = entries.len() - 1;
        assert forall|i: int| 0 <= i < n implies (#[trigger] entries[i]).0 != entries[n].0 by {
            assert(names[i] == entries[i].0 && names[n] == entries[n].0);
            assert(rest[i] == entries[i]);
        }
        assert forall|i: int| 0 <= i < n implies rest[i] == #[trigger] entries[i] by {}
    }
}

/// A new beginning puts its rows in the order of its entries: the place of each, in the event and in the
/// order in which the rows came, is that of its entry, and the next row comes behind them.
pub proof fn places_of_a_new_beginning<K, V>(
    begin: LeftRouting<K, V>,
    place: u64,
    entries: Seq<(K, V)>,
    to: spec_fn(K, V) -> int,
)
    requires
        entries.len() <= u64::MAX,
        entry_keys(entries).no_duplicates(),
    ensures
        begin.step(place, Change::Initial { entries }, to).next == entries.len(),
        forall|i: int|
            0 <= i < entries.len() ==> {
                let k = (#[trigger] entries[i]).0;
                &&& begin.step(place, Change::Initial { entries }, to).ordinals.contains_key(k)
                &&& begin.step(place, Change::Initial { entries }, to).ordinals[k] == i
                &&& begin.step(place, Change::Initial { entries }, to).sequence.contains_key(k)
                &&& begin.step(place, Change::Initial { entries }, to).sequence[k] == i
            },
{
    let fresh = LeftRouting {
        routes: Map::empty(),
        sequence: Map::empty(),
        next: 0,
        ordinals: begin.ordinals,
        routed: crate::join_runtime::sharded::send_reset(begin.routed),
    };
    entered_in_order(fresh, entries, to);
}

/// The order in which the left rows came: a new row comes behind all others, a row that changes stays
/// where it is, and a row that goes leaves the others where they were.
pub proof fn places_of_left_rows<K, V>(
    begin: LeftRouting<K, V>,
    place: u64,
    change: Change<K, V>,
    to: spec_fn(K, V) -> int,
    k: K,
)
    requires
        begin.next < u64::MAX,
    ensures
        change matches Change::Insert { key, value } ==> !begin.sequence.contains_key(key) ==> {
            &&& begin.step(place, change, to).sequence.contains_key(key)
            &&& begin.step(place, change, to).sequence[key] == begin.next
            &&& begin.step(place, change, to).next == begin.next + 1
        },
        change matches Change::Update { key, old_value, new_value } ==> begin.step(
            place,
            change,
            to,
        ).sequence == begin.sequence && begin.step(place, change, to).next == begin.next,
        change matches Change::Remove { key, old_value } ==> !begin.step(
            place,
            change,
            to,
        ).sequence.contains_key(key) && begin.step(place, change, to).next == begin.next,
        change_key(change) is Some && change_key(change) != Some(k) ==> begin.step(
            place,
            change,
            to,
        ).sequence.contains_key(k) == begin.sequence.contains_key(k) && begin.step(
            place,
            change,
            to,
        ).sequence[k] == begin.sequence[k],
{
}

} // verus!
