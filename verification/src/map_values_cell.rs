//! Rows whose values come from cells that change on their own.
use vstd::prelude::*;

use crate::delta::{commit_change, lookup_ext};
use crate::diff::{
    all_leaves, apply_change, atoms, entries_map, fits_all, flat, replay, replay_concat,
    replay_push, steps_of, steps_of_push, Change, MapDiff,
};
use crate::diff_runtime::{group_change, told_groups};
use crate::fx::{lists, lookup, FxMap};
use crate::guards::GuardTable;
use crate::value::{models, CellValue, MapKey};

verus! {

/// What is told of an event that gives rows the values that their cells have: an old row is told as
/// updated, a new one as inserted. With a new beginning the rows that were there go first.
pub open spec fn cell_steps<K, U>(
    last: Map<K, U>,
    change: Change<K, U>,
    told: Seq<Change<K, U>>,
) -> bool {
    match change {
        Change::Initial { entries } => exists|gone: Seq<K>| #[trigger]
            lists(gone, last.dom()) && told == told_groups(last, gone, Map::empty()) + attach_all(
                Map::empty(),
                entries,
            ),
        Change::Insert { key, value } => told == attach_one(last, key, value),
        Change::Remove { key, old_value } => told == detach_one(last, key),
        Change::Update { key, old_value, new_value } => told == attach_one(last, key, new_value),
    }
}

/// The change of a row that gets the value of its cell.
pub open spec fn attach_one<K, U>(last: Map<K, U>, k: K, u: U) -> Seq<Change<K, U>> {
    group_change(k, lookup(last, k), Some(u))
}

/// The change, if any, of a row that loses its cell.
pub open spec fn detach_one<K, U>(last: Map<K, U>, k: K) -> Seq<Change<K, U>> {
    group_change(k, lookup(last, k), None)
}

/// The changes of rows that get the values of their cells in turn.
pub open spec fn attach_all<K, U>(last: Map<K, U>, entries: Seq<(K, U)>) -> Seq<Change<K, U>>
    decreases entries.len(),
{
    if entries.len() == 0 {
        Seq::empty()
    } else {
        attach_all(last, entries.drop_last()) + attach_one(
            with_entries(last, entries.drop_last()),
            entries.last().0,
            entries.last().1,
        )
    }
}

/// A map with entries set in turn.
pub open spec fn with_entries<K, U>(last: Map<K, U>, entries: Seq<(K, U)>) -> Map<K, U>
    decreases entries.len(),
{
    if entries.len() == 0 {
        last
    } else {
        with_entries(last, entries.drop_last()).insert(entries.last().0, entries.last().1)
    }
}

proof fn with_entries_none<K, U>(entries: Seq<(K, U)>)
    ensures
        with_entries(Map::empty(), entries) == entries_map(entries),
    decreases entries.len(),
{
    if entries.len() > 0 {
        with_entries_none(entries.drop_last());
    }
}

proof fn one_change_replays<K, U>(last: Map<K, U>, k: K, u: Option<U>)
    ensures
        fits_all(last, group_change(k, lookup(last, k), u)),
        replay(last, group_change(k, lookup(last, k), u)) == crate::delta::put(last, k, u),
{
    let told = group_change(k, lookup(last, k), u);
    if told.len() > 0 {
        assert(told =~= Seq::empty().push(told[0]));
        replay_push(last, Seq::empty(), told[0]);
    } else {
        assert(crate::delta::put(last, k, u) =~= last);
    }
}

proof fn attach_all_replays<K, U>(last: Map<K, U>, entries: Seq<(K, U)>)
    ensures
        fits_all(last, attach_all(last, entries)),
        replay(last, attach_all(last, entries)) == with_entries(last, entries),
    decreases entries.len(),
{
    if entries.len() > 0 {
        let rest = entries.drop_last();
        attach_all_replays(last, rest);
        let mid = with_entries(last, rest);
        one_change_replays(mid, entries.last().0, Some(entries.last().1));
        replay_concat(
            last,
            attach_all(last, rest),
            attach_one(mid, entries.last().0, entries.last().1),
        );
    }
}

/// What is told of an event fits the rows that there were and leads to those that there are.
pub proof fn cell_steps_replay<K, U>(
    last: Map<K, U>,
    change: Change<K, U>,
    told: Seq<Change<K, U>>,
)
    requires
        cell_steps(last, change, told),
    ensures
        fits_all(last, told),
        replay(last, told) == apply_change(last, change),
{
    match change {
        Change::Initial { entries } => {
            let gone = choose|gone: Seq<K>| #[trigger]
                lists(gone, last.dom()) && told == told_groups(last, gone, Map::empty()) + attach_all(
                    Map::empty(),
                    entries,
                );
            let first = told_groups(last, gone, Map::empty());
            crate::diff_runtime::told_groups_replay(last, gone, Map::empty());
            assert forall|k: K| #[trigger] lookup(replay(last, first), k) == lookup(
                Map::<K, U>::empty(),
                k,
            ) by {
                if !gone.contains(k) {
                    assert(!last.dom().contains(k));
                }
            }
            lookup_ext(replay(last, first), Map::empty());
            attach_all_replays(Map::<K, U>::empty(), entries);
            with_entries_none(entries);
            replay_concat(last, first, attach_all(Map::empty(), entries));
        },
        Change::Insert { key, value } => one_change_replays(last, key, Some(value)),
        Change::Remove { key, old_value } => one_change_replays(last, key, None),
        Change::Update { key, old_value, new_value } => one_change_replays(
            last,
            key,
            Some(new_value),
        ),
    }
}

/// What is told of several changes, one after the other.
pub open spec fn cell_run<K, U>(
    last: Map<K, U>,
    steps: Seq<Change<K, U>>,
    told: Seq<Change<K, U>>,
) -> bool
    decreases steps.len(),
{
    if steps.len() == 0 {
        told == Seq::<Change<K, U>>::empty()
    } else {
        exists|a: Seq<Change<K, U>>, b: Seq<Change<K, U>>|
            cell_run(last, steps.drop_last(), a) && #[trigger] cell_steps(
                replay(last, steps.drop_last()),
                steps.last(),
                b,
            ) && told == #[trigger] (a + b)
    }
}

/// Rows whose values come from cells: what is told of them fits what was told before, and leads to
/// the values that the cells have.
pub proof fn cell_run_replays<K, U>(
    last: Map<K, U>,
    steps: Seq<Change<K, U>>,
    told: Seq<Change<K, U>>,
)
    requires
        cell_run(last, steps, told),
    ensures
        fits_all(last, told),
        replay(last, told) == replay(last, steps),
    decreases steps.len(),
{
    if steps.len() > 0 {
        let rest = steps.drop_last();
        let (a, b) = choose|a: Seq<Change<K, U>>, b: Seq<Change<K, U>>|
            cell_run(last, rest, a) && #[trigger] cell_steps(replay(last, rest), steps.last(), b)
                && told == #[trigger] (a + b);
        cell_run_replays(last, rest, a);
        cell_steps_replay(replay(last, rest), steps.last(), b);
        replay_concat(last, a, b);
    }
}

/// For each row the guard of the subscription to its cell, and the value that was told last.
#[verifier::reject_recursive_types(K)]
#[verifier::reject_recursive_types(U)]
#[verifier::reject_recursive_types(G)]
pub struct MapValuesRuntime<K: MapKey, U: CellValue, G> {
    per_key_guards: GuardTable<K, G>,
    last_value: FxMap<K, U>,
}

impl<K: MapKey, U: CellValue, G> MapValuesRuntime<K, U, G> {
    /// The value that was told last of each row.
    pub closed spec fn last(&self) -> Map<K::Model, U::Model> {
        self.last_value@
    }

    /// The guard of each row.
    pub closed spec fn guards(&self) -> Map<K::Model, G> {
        self.per_key_guards@
    }

    /// The value that was told last of a row.
    pub fn get(&self, key: &K) -> (value: Option<&U>)
        ensures
            value is Some == self.last().contains_key(key.model()),
            value is Some ==> value->Some_0.model() == self.last()[key.model()],
    {
        self.last_value.get(key)
    }

    /// Takes the guard of a row out, to be dropped before the row gets another cell or goes.
    pub fn release(&mut self, key: &K) -> (guard: Option<G>)
        ensures
            final(self).last() == old(self).last(),
            final(self).guards() == old(self).guards().remove(key.model()),
            guard == lookup(old(self).guards(), key.model()),
    {
        self.per_key_guards.remove(key)
    }

    /// Keeps the guard of the subscription to the cell of a row.
    pub fn hold(&mut self, key: K, guard: G) -> (before: Option<G>)
        ensures
            final(self).last() == old(self).last(),
            final(self).guards() == old(self).guards().insert(key.model(), guard),
            before == lookup(old(self).guards(), key.model()),
    {
        self.per_key_guards.insert(key, guard)
    }

    /// The rows that have a guard, in an order that nothing is said of.
    pub fn held_keys(&self) -> (keys: Vec<K>)
        ensures
            lists(models(keys@), self.guards().dom()),
    {
        self.per_key_guards.keys()
    }

    /// Gives a row the value that its cell has, and tells it: as an update where the row was there.
    pub fn attach(&mut self, key: K, initial: U) -> (diff: MapDiff<K, U>)
        ensures
            final(self).last() == old(self).last().insert(key.model(), initial.model()),
            final(self).guards() == old(self).guards(),
            !(diff is Batch),
            diff.steps() == attach_one(old(self).last(), key.model(), initial.model()),
    {
        let ghost last = self.last();
        let ghost k = key.model();
        let ghost u = initial.model();
        let diff = match self.last_value.insert(key.clone_value(), initial.clone_value()) {
            None => MapDiff::Insert { key, value: initial },
            Some(old_value) => MapDiff::Update { key, old_value, new_value: initial },
        };
        assert(diff.steps() =~= attach_one(last, k, u));
        diff
    }

    /// Notes that the cell of a row has another value, and tells it where it is another.
    pub fn emit(&mut self, key: K, value: U) -> (diff: Option<MapDiff<K, U>>)
        ensures
            final(self).last() == old(self).last().insert(key.model(), value.model()),
            final(self).guards() == old(self).guards(),
            diff is Some == (lookup(old(self).last(), key.model()) != Some(value.model())),
            diff is Some ==> !(diff->Some_0 is Batch) && diff->Some_0.steps() == commit_change(
                key.model(),
                lookup(old(self).last(), key.model()),
                Some(value.model()),
            ),
    {
        let ghost last = self.last();
        let ghost k = key.model();
        let ghost u = value.model();
        match self.last_value.insert(key.clone_value(), value.clone_value()) {
            None => {
                let diff = MapDiff::Insert { key, value };
                assert(diff.steps() =~= commit_change(k, lookup(last, k), Some(u)));
                Some(diff)
            },
            Some(old_value) => if old_value.equals(&value) {
                None
            } else {
                let diff = MapDiff::Update { key, old_value, new_value: value };
                assert(diff.steps() =~= commit_change(k, lookup(last, k), Some(u)));
                Some(diff)
            },
        }
    }

    /// Forgets the value of a row, and tells that the row is gone where it was there.
    pub fn detach(&mut self, key: &K) -> (diff: Option<MapDiff<K, U>>)
        ensures
            final(self).last() == old(self).last().remove(key.model()),
            final(self).guards() == old(self).guards(),
            diff is Some == old(self).last().contains_key(key.model()),
            diff is Some ==> !(diff->Some_0 is Batch) && diff->Some_0.steps() == detach_one(
                old(self).last(),
                key.model(),
            ),
    {
        let ghost last = self.last();
        let ghost k = key.model();
        match self.last_value.remove(key) {
            Some(old_value) => {
                let diff = MapDiff::Remove { key: key.clone_value(), old_value };
                assert(diff.steps() =~= detach_one(last, k));
                Some(diff)
            },
            None => None,
        }
    }

    fn apply_change(&mut self, leaf: &MapDiff<K, U>, changes: &mut Vec<MapDiff<K, U>>) -> (told: Ghost<
        Seq<Change<K::Model, U::Model>>,
    >)
        requires
            !(leaf is Batch),
            flat(old(changes)@),
        ensures
            final(self).last() == apply_change(old(self).last(), leaf.atom()),
            final(self).guards() == old(self).guards(),
            flat(final(changes)@),
            cell_steps(old(self).last(), leaf.atom(), told@),
            steps_of(final(changes)@) == steps_of(old(changes)@) + told@,
    {
        let ghost last = self.last();
        let ghost from = steps_of(changes@);
        let ghost mut told: Seq<Change<K::Model, U::Model>> = Seq::empty();
        match leaf {
            MapDiff::Initial { entries } => {
                let keys = self.last_value.keys();
                let ghost gone = models(keys@);
                let ghost none: Map<K::Model, U::Model> = Map::empty();
                let mut n: usize = 0;
                proof {
                    assert(gone.take(0) =~= Seq::empty());
                    assert(from + Seq::empty() =~= from);
                    assert(without_all(last, gone.take(0)) =~= last);
                }
                while n < keys.len()
                    invariant
                        n <= keys@.len(),
                        gone == models(keys@),
                        gone.no_duplicates(),
                        none == Map::<K::Model, U::Model>::empty(),
                        self.guards() == old(self).guards(),
                        self.last() == without_all(last, gone.take(n as int)),
                        flat(changes@),
                        steps_of(changes@) == from + told_groups(last, gone.take(n as int), none),
                    decreases keys@.len() - n,
                {
                    let ghost k = gone[n as int];
                    let ghost sofar = told_groups(last, gone.take(n as int), none);
                    let ghost had = changes@;
                    proof {
                        let part = gone.take(n + 1);
                        assert(part.drop_last() =~= gone.take(n as int));
                        assert(part.last() == k);
                        assert(!gone.take(n as int).contains(k));
                        assert(lookup(self.last(), k) == lookup(last, k));
                        assert(lookup(none, k) == None::<U::Model>);
                        assert(from + (sofar + detach_one(last, k)) =~= (from + sofar) + detach_one(
                            last,
                            k,
                        ));
                        without_all_next(last, gone, n as int);
                    }
                    match self.detach(&keys[n]) {
                        Some(diff) => {
                            proof {
                                steps_of_push(had, diff);
                            }
                            changes.push(diff);
                        },
                        None => {
                            assert(detach_one(last, k) =~= Seq::empty());
                            assert(steps_of(had) + Seq::empty() =~= steps_of(had));
                        },
                    }
                    n += 1;
                }
                let ghost all = models(entries@);
                let ghost first = told_groups(last, gone, none);
                let mut i: usize = 0;
                proof {
                    assert(gone.take(n as int) =~= gone);
                    assert(self.last() =~= none);
                    assert(all.take(0) =~= Seq::empty());
                    assert((from + first) + Seq::empty() =~= from + first);
                }
                while i < entries.len()
                    invariant
                        i <= entries@.len(),
                        all == models(entries@),
                        none == Map::<K::Model, U::Model>::empty(),
                        self.guards() == old(self).guards(),
                        self.last() == with_entries(none, all.take(i as int)),
                        flat(changes@),
                        steps_of(changes@) == (from + first) + attach_all(none, all.take(i as int)),
                    decreases entries@.len() - i,
                {
                    let (key, value) = &entries[i];
                    let ghost had = changes@;
                    let ghost part = all.take(i as int);
                    proof {
                        assert(all.take(i + 1).drop_last() =~= part);
                        assert(all.take(i + 1).last() == (key.model(), value.model()));
                    }
                    let diff = self.attach(key.clone_value(), value.clone_value());
                    proof {
                        steps_of_push(had, diff);
                        let one = attach_one(with_entries(none, part), key.model(), value.model());
                        assert(((from + first) + attach_all(none, part)) + one =~= (from + first) + (
                        attach_all(none, part) + one));
                    }
                    changes.push(diff);
                    i += 1;
                }
                proof {
                    assert(all.take(i as int) =~= all);
                    with_entries_none(all);
                    told = first + attach_all(none, all);
                    assert(from + told =~= (from + first) + attach_all(none, all));
                    assert(lists(gone, last.dom()));
                }
            },
            MapDiff::Insert { key, value } => {
                let ghost had = changes@;
                let diff = self.attach(key.clone_value(), value.clone_value());
                proof {
                    steps_of_push(had, diff);
                    told = diff.steps();
                }
                changes.push(diff);
            },
            MapDiff::Update { key, new_value, .. } => {
                let ghost had = changes@;
                let diff = self.attach(key.clone_value(), new_value.clone_value());
                proof {
                    steps_of_push(had, diff);
                    told = diff.steps();
                }
                changes.push(diff);
            },
            MapDiff::Remove { key, .. } => {
                let ghost had = changes@;
                match self.detach(key) {
                    Some(diff) => {
                        proof {
                            steps_of_push(had, diff);
                            told = diff.steps();
                        }
                        changes.push(diff);
                    },
                    None => {
                        proof {
                            told = detach_one(last, key.model());
                            assert(told =~= Seq::empty());
                            assert(steps_of(had) + told =~= steps_of(had));
                        }
                    },
                }
            },
            MapDiff::Batch { .. } => {},
        }
        Ghost(told)
    }

    /// Follows a diff of the rows, in which each row has the value that its cell has, and tells how
    /// the rows change: of a batch as one batch, or not at all where nothing changes.
    pub fn apply(&mut self, diff: &MapDiff<K, U>) -> (emitted: Vec<MapDiff<K, U>>)
        ensures
            final(self).last() == replay(old(self).last(), diff.steps()),
            final(self).guards() == old(self).guards(),
            cell_run(old(self).last(), diff.steps(), steps_of(emitted@)),
            fits_all(old(self).last(), steps_of(emitted@)),
            replay(old(self).last(), steps_of(emitted@)) == final(self).last(),
            diff is Batch ==> emitted@.len() == (if steps_of(emitted@).len() > 0 {
                1nat
            } else {
                0
            }) && (emitted@.len() > 0 ==> emitted@[0] is Batch && flat(
                emitted@[0]->changes@,
            )),
            !(diff is Batch) ==> flat(emitted@),
    {
        let ghost steps = diff.steps();
        let ghost last = self.last();
        let leaves = diff.leaves();
        let mut changes: Vec<MapDiff<K, U>> = Vec::new();
        let mut i: usize = 0;
        proof {
            assert(steps.take(0) =~= Seq::empty());
            assert(steps_of(changes@) =~= Seq::empty());
        }
        while i < leaves.len()
            invariant
                i <= leaves@.len(),
                all_leaves(leaves@),
                atoms(leaves@) == steps,
                self.last() == replay(last, steps.take(i as int)),
                self.guards() == old(self).guards(),
                flat(changes@),
                cell_run(last, steps.take(i as int), steps_of(changes@)),
            decreases leaves@.len() - i,
        {
            let ghost sofar = steps_of(changes@);
            let ghost mid = self.last();
            let told = self.apply_change(leaves[i], &mut changes);
            proof {
                assert(steps[i as int] == leaves@[i as int].atom());
                let part = steps.take(i + 1);
                assert(part.drop_last() =~= steps.take(i as int));
                assert(part.last() == steps[i as int]);
                assert(cell_steps(replay(last, part.drop_last()), part.last(), told@));
                assert(steps_of(changes@) == sofar + told@);
            }
            i += 1;
        }
        proof {
            assert(steps.take(i as int) =~= steps);
            cell_run_replays(last, steps, steps_of(changes@));
            crate::diff::steps_of_flat(changes@);
        }
        match diff {
            MapDiff::Batch { .. } => {
                let mut emitted: Vec<MapDiff<K, U>> = Vec::new();
                if changes.len() > 0 {
                    let batch = MapDiff::Batch { changes };
                    proof {
                        steps_of_push(emitted@, batch);
                        assert(steps_of(emitted@) + steps_of(changes@) =~= steps_of(changes@));
                    }
                    emitted.push(batch);
                } else {
                    assert(steps_of(changes@) =~= Seq::empty());
                    assert(steps_of(emitted@) =~= Seq::empty());
                }
                emitted
            },
            _ => changes,
        }
    }
}

/// A map without some keys.
pub open spec fn without_all<K, U>(last: Map<K, U>, keys: Seq<K>) -> Map<K, U> {
    Map::new(|k: K| last.contains_key(k) && !keys.contains(k), |k: K| last[k])
}

pub proof fn without_all_next<K, U>(last: Map<K, U>, keys: Seq<K>, n: int)
    requires
        0 <= n < keys.len(),
    ensures
        without_all(last, keys.take(n + 1)) == without_all(last, keys.take(n)).remove(keys[n]),
{
    let a = keys.take(n);
    let b = keys.take(n + 1);
    assert forall|k: K| b.contains(k) <==> a.contains(k) || k == keys[n] by {
        if a.contains(k) {
            let i = choose|i: int| 0 <= i < a.len() && a[i] == k;
            assert(b[i] == k);
        }
        assert(b[n] == keys[n]);
        if b.contains(k) {
            let i = choose|i: int| 0 <= i < b.len() && b[i] == k;
            if i < n {
                assert(a[i] == k);
            }
        }
    }
    assert(without_all(last, b) =~= without_all(last, a).remove(keys[n]));
}

/// Rows whose values come from cells, without rows.
pub fn install_map_values_cell_via_query<K: MapKey, U: CellValue, G>() -> (runtime: MapValuesRuntime<
    K,
    U,
    G,
>)
    ensures
        runtime.last() == Map::<K::Model, U::Model>::empty(),
        runtime.guards() == Map::<K::Model, G>::empty(),
{
    MapValuesRuntime { per_key_guards: GuardTable::new(), last_value: FxMap::new() }
}

/// What is told of a row that gets the value of a cell, or loses its cell: a row that was there is told
/// as updated, always, one that was not is told as inserted, and one that goes is told as removed.
pub proof fn told_of_a_cell<K, U>(last: Map<K, U>, k: K, u: U)
    ensures
        last.contains_key(k) ==> attach_one(last, k, u) == seq![
            Change::Update { key: k, old_value: last[k], new_value: u },
        ],
        !last.contains_key(k) ==> attach_one(last, k, u) == seq![Change::Insert { key: k, value: u }],
        last.contains_key(k) ==> detach_one(last, k) == seq![
            Change::<K, U>::Remove { key: k, old_value: last[k] },
        ],
        !last.contains_key(k) ==> detach_one(last, k).len() == 0,
{
}

/// Rows whose values come from cells: after what is told of changes of the rows, each row has the value
/// that it was last given, and no row is there that the changes do not leave.
pub proof fn values_of_cells<K, U>(
    last: Map<K, U>,
    steps: Seq<Change<K, U>>,
    told: Seq<Change<K, U>>,
    k: K,
)
    requires
        cell_run(last, steps, told),
    ensures
        fits_all(last, told),
        replay(last, told).contains_key(k) == replay(last, steps).contains_key(k),
        replay(last, told).contains_key(k) ==> replay(last, told)[k] == replay(last, steps)[k],
{
    cell_run_replays(last, steps, told);
}

proof fn attached_in_order<K, U>(entries: Seq<(K, U)>)
    requires
        forall|i: int, j: int|
            0 <= i < j < entries.len() ==> (#[trigger] entries[i]).0 != (#[trigger] entries[j]).0,
    ensures
        attach_all(Map::<K, U>::empty(), entries).len() == entries.len(),
        forall|i: int|
            0 <= i < entries.len() ==> #[trigger] attach_all(Map::<K, U>::empty(), entries)[i]
                == (Change::Insert { key: entries[i].0, value: entries[i].1 }),
        forall|k: K| #[trigger]
            with_entries(Map::<K, U>::empty(), entries).contains_key(k) ==> exists|i: int|
                0 <= i < entries.len() && (#[trigger] entries[i]).0 == k,
    decreases entries.len(),
{
    if entries.len() > 0 {
        let rest = entries.drop_last();
        let n = entries.len() - 1;
        assert forall|i: int, j: int| 0 <= i < j < rest.len() implies (#[trigger] rest[i]).0 != (
        #[trigger] rest[j]).0 by {
            assert(rest[i] == entries[i] && rest[j] == entries[j]);
        }
        attached_in_order(rest);
        let before = with_entries(Map::<K, U>::empty(), rest);
        let (k, u) = entries.last();
        assert(!before.contains_key(k)) by {
            if before.contains_key(k) {
                let i = choose|i: int| 0 <= i < rest.len() && (#[trigger] rest[i]).0 == k;
                assert(entries[i].0 == entries[n].0);
            }
        }
        told_of_a_cell(before, k, u);
        assert forall|x: K| #[trigger]
            with_entries(Map::<K, U>::empty(), entries).contains_key(x) implies exists|i: int|
            0 <= i < entries.len() && (#[trigger] entries[i]).0 == x by {
            if x == k {
                assert(entries[n].0 == x);
            } else {
                assert(before.contains_key(x));
                let i = choose|i: int| 0 <= i < rest.len() && (#[trigger] rest[i]).0 == x;
                assert(entries[i].0 == x);
            }
        }
    }
}

/// A new beginning of rows whose values come from cells: `gone`, the rows that were there, go, each once,
/// with the values that were told last, and then the rows of its entries come, in order, with the
/// values that their cells have.
pub proof fn new_beginning_of_cells<K, U>(
    last: Map<K, U>,
    entries: Seq<(K, U)>,
    told: Seq<Change<K, U>>,
) -> (gone: Seq<K>)
    requires
        cell_steps(last, Change::Initial { entries }, told),
        forall|i: int, j: int|
            0 <= i < j < entries.len() ==> (#[trigger] entries[i]).0 != (#[trigger] entries[j]).0,
    ensures
        lists(gone, last.dom()),
        told.len() == gone.len() + entries.len(),
        forall|i: int|
            0 <= i < gone.len() ==> #[trigger] told[i] == (Change::Remove {
                key: gone[i],
                old_value: last[gone[i]],
            }),
        forall|i: int|
            0 <= i < entries.len() ==> #[trigger] told[gone.len() + i] == (Change::Insert {
                key: entries[i].0,
                value: entries[i].1,
            }),
{
    let gone = choose|gone: Seq<K>| #[trigger]
        lists(gone, last.dom()) && told == told_groups(last, gone, Map::empty()) + attach_all(
            Map::empty(),
            entries,
        );
    attached_in_order(entries);
    removed_in_order(last, gone);
    gone
}

proof fn removed_in_order<K, U>(last: Map<K, U>, gone: Seq<K>)
    requires
        forall|k: K| gone.contains(k) ==> last.contains_key(k),
    ensures
        told_groups(last, gone, Map::empty()).len() == gone.len(),
        forall|i: int|
            0 <= i < gone.len() ==> #[trigger] told_groups(last, gone, Map::empty())[i] == (
            Change::Remove { key: gone[i], old_value: last[gone[i]] }),
    decreases gone.len(),
{
    if gone.len() > 0 {
        let rest = gone.drop_last();
        assert forall|k: K| rest.contains(k) implies last.contains_key(k) by {
            let i = choose|i: int| 0 <= i < rest.len() && rest[i] == k;
            assert(gone[i] == k);
            assert(gone.contains(k));
        }
        removed_in_order(last, rest);
        assert(gone[gone.len() - 1] == gone.last());
        assert(gone.contains(gone.last()));
    }
}

} // verus!
