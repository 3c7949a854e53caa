//! Rows whose place and value in the output come from cells that change on their own.
use std::marker::PhantomData;
use vstd::prelude::*;

use crate::delta::{lookup_ext, put};
use crate::diff::{
    all_leaves, atoms, fits_all, flat, replay, replay_concat, replay_push, steps_of, steps_of_push,
    Change, MapDiff,
};
use crate::fx::{lists, lookup, FxMap};
use crate::map_values_cell::{cell_run, install_map_values_cell_via_query, MapValuesRuntime};
use crate::query::{MapQuery, PlanProperties, Repartition, ZeroOrOne};
use crate::value::{models, CellValue, MapKey};

verus! {

/// What is told when the output row of a source row becomes another.
pub open spec fn retarget<K2, V2>(before: Option<(K2, V2)>, after: Option<(K2, V2)>) -> Seq<
    Change<K2, V2>,
> {
    match (before, after) {
        (None, None) => Seq::empty(),
        (None, Some(new)) => seq![Change::Insert { key: new.0, value: new.1 }],
        (Some(old), None) => seq![Change::Remove { key: old.0, old_value: old.1 }],
        (Some(old), Some(new)) => if old.0 != new.0 {
            seq![
                Change::Remove { key: old.0, old_value: old.1 },
                Change::Insert { key: new.0, value: new.1 },
            ]
        } else if old.1 != new.1 {
            seq![Change::Update { key: new.0, old_value: old.1, new_value: new.1 }]
        } else {
            Seq::empty()
        },
    }
}

/// The output rows of source rows, once entries are followed in turn.
pub open spec fn with_targets<K, K2, V2>(
    last: Map<K, (K2, V2)>,
    entries: Seq<(K, Option<(K2, V2)>)>,
) -> Map<K, (K2, V2)>
    decreases entries.len(),
{
    if entries.len() == 0 {
        last
    } else {
        put(with_targets(last, entries.drop_last()), entries.last().0, entries.last().1)
    }
}

/// What is told when entries are followed in turn.
pub open spec fn retarget_all<K, K2, V2>(
    last: Map<K, (K2, V2)>,
    entries: Seq<(K, Option<(K2, V2)>)>,
) -> Seq<Change<K2, V2>>
    decreases entries.len(),
{
    if entries.len() == 0 {
        Seq::empty()
    } else {
        retarget_all(last, entries.drop_last()) + retarget(
            lookup(with_targets(last, entries.drop_last()), entries.last().0),
            entries.last().1,
        )
    }
}

/// What is told when the output rows of some source rows go.
pub open spec fn withdraw_all<K, K2, V2>(last: Map<K, (K2, V2)>, gone: Seq<K>) -> Seq<
    Change<K2, V2>,
> {
    gone.map_values(|k: K| Change::Remove { key: last[k].0, old_value: last[k].1 })
}

/// The output rows of source rows after a change of what their cells say.
pub open spec fn target_step<K, K2, V2>(
    last: Map<K, (K2, V2)>,
    change: Change<K, Option<(K2, V2)>>,
) -> Map<K, (K2, V2)> {
    match change {
        Change::Initial { entries } => with_targets(Map::empty(), entries),
        Change::Insert { key, value } => put(last, key, value),
        Change::Remove { key, old_value } => put(last, key, None),
        Change::Update { key, old_value, new_value } => put(last, key, new_value),
    }
}

/// What is told of a change of what the cells say. With a new beginning the output rows that were
/// there go first, in an order that nothing is said of.
pub open spec fn target_told<K, K2, V2>(
    last: Map<K, (K2, V2)>,
    change: Change<K, Option<(K2, V2)>>,
    told: Seq<Change<K2, V2>>,
) -> bool {
    match change {
        Change::Initial { entries } => exists|gone: Seq<K>| #[trigger]
            lists(gone, last.dom()) && told == withdraw_all(last, gone) + retarget_all(
                Map::empty(),
                entries,
            ),
        Change::Insert { key, value } => told == retarget(lookup(last, key), value),
        Change::Remove { key, old_value } => told == retarget(lookup(last, key), None),
        Change::Update { key, old_value, new_value } => told == retarget(
            lookup(last, key),
            new_value,
        ),
    }
}

/// The output rows of source rows after several changes.
pub open spec fn target_run<K, K2, V2>(
    last: Map<K, (K2, V2)>,
    steps: Seq<Change<K, Option<(K2, V2)>>>,
) -> Map<K, (K2, V2)>
    decreases steps.len(),
{
    if steps.len() == 0 {
        last
    } else {
        target_step(target_run(last, steps.drop_last()), steps.last())
    }
}

/// What is told of several changes, one after the other.
pub open spec fn told_run<K, K2, V2>(
    last: Map<K, (K2, V2)>,
    steps: Seq<Change<K, Option<(K2, V2)>>>,
    told: Seq<Change<K2, V2>>,
) -> bool
    decreases steps.len(),
{
    if steps.len() == 0 {
        told == Seq::<Change<K2, V2>>::empty()
    } else {
        exists|a: Seq<Change<K2, V2>>, b: Seq<Change<K2, V2>>|
            told_run(last, steps.drop_last(), a) && #[trigger] target_told(
                target_run(last, steps.drop_last()),
                steps.last(),
                b,
            ) && told == #[trigger] (a + b)
    }
}

/// No two source rows have output rows with the same key.
pub open spec fn targets_distinct<K, K2, V2>(last: Map<K, (K2, V2)>) -> bool {
    forall|a: K, b: K|
        #![trigger last.contains_key(a), last.contains_key(b)]
        last.contains_key(a) && last.contains_key(b) && last[a].0 == last[b].0 ==> a == b
}

/// A source row that has an output row with this key.
pub open spec fn targets<K, K2, V2>(last: Map<K, (K2, V2)>, k: K, o: K2) -> bool {
    last.contains_key(k) && last[k].0 == o
}

/// The output rows of all source rows.
pub open spec fn target_rows<K, K2, V2>(last: Map<K, (K2, V2)>) -> Map<K2, V2> {
    Map::new(
        |o: K2| exists|k: K| #[trigger] targets(last, k, o),
        |o: K2| last[choose|k: K| #[trigger] targets(last, k, o)].1,
    )
}

proof fn target_rows_at<K, K2, V2>(last: Map<K, (K2, V2)>, k: K)
    requires
        targets_distinct(last),
        last.contains_key(k),
    ensures
        lookup(target_rows(last), last[k].0) == Some(last[k].1),
{
    let o = last[k].0;
    assert(targets(last, k, o));
    let c = choose|c: K| #[trigger] targets(last, c, o);
    assert(last.contains_key(c) && last.contains_key(k));
}

proof fn target_rows_put<K, K2, V2>(last: Map<K, (K2, V2)>, k: K, new: Option<(K2, V2)>)
    requires
        targets_distinct(last),
        targets_distinct(put(last, k, new)),
    ensures
        fits_all(target_rows(last), retarget(lookup(last, k), new)),
        replay(target_rows(last), retarget(lookup(last, k), new)) == target_rows(put(last, k, new)),
{
    let old = lookup(last, k);
    let told = retarget(old, new);
    let rows = target_rows(last);
    let after = put(last, k, new);
    let want = target_rows(after);
    assert forall|o: K2|
        (old is Some ==> o != old->Some_0.0) && (new is Some ==> o != new->Some_0.0) implies #[trigger] lookup(
        rows,
        o,
    ) == lookup(want, o) by {
        if rows.contains_key(o) {
            let c = choose|c: K| #[trigger] targets(last, c, o);
            assert(targets(after, c, o));
            target_rows_at(last, c);
            target_rows_at(after, c);
        }
        if want.contains_key(o) {
            let c = choose|c: K| #[trigger] targets(after, c, o);
            assert(targets(last, c, o));
            target_rows_at(last, c);
            target_rows_at(after, c);
        }
    }
    if let Some(row) = old {
        target_rows_at(last, k);
        if new is None || new->Some_0.0 != row.0 {
            assert(!want.contains_key(row.0)) by {
                if want.contains_key(row.0) {
                    let c = choose|c: K| #[trigger] targets(after, c, row.0);
                    assert(last.contains_key(c) && last.contains_key(k));
                }
            }
        }
    }
    if let Some(row) = new {
        assert(after.contains_key(k) && after[k] == row);
        target_rows_at(after, k);
        if old is None || old->Some_0.0 != row.0 {
            assert(!rows.contains_key(row.0)) by {
                if rows.contains_key(row.0) {
                    let c = choose|c: K| #[trigger] targets(last, c, row.0);
                    assert(after.contains_key(c) && after.contains_key(k));
                }
            }
        }
    }
    if told.len() > 0 {
        let first = Seq::<Change<K2, V2>>::empty().push(told[0]);
        replay_push(rows, Seq::empty(), told[0]);
        if told.len() == 2 {
            assert(told =~= first.push(told[1]));
            replay_push(rows, first, told[1]);
        } else {
            assert(told =~= first);
        }
    }
    assert forall|o: K2| #[trigger] lookup(replay(rows, told), o) == lookup(want, o) by {
        let _ = lookup(rows, o);
    }
    lookup_ext(replay(rows, told), want);
}

proof fn retarget_all_replays<K, K2, V2>(
    last: Map<K, (K2, V2)>,
    entries: Seq<(K, Option<(K2, V2)>)>,
)
    requires
        forall|i: int|
            0 <= i <= entries.len() ==> targets_distinct(#[trigger] with_targets(last, entries.take(i))),
    ensures
        fits_all(target_rows(last), retarget_all(last, entries)),
        replay(target_rows(last), retarget_all(last, entries)) == target_rows(
            with_targets(last, entries),
        ),
    decreases entries.len(),
{
    if entries.len() > 0 {
        let rest = entries.drop_last();
        assert forall|i: int| 0 <= i <= rest.len() implies targets_distinct(
            #[trigger] with_targets(last, rest.take(i)),
        ) by {
            assert(rest.take(i) =~= entries.take(i));
        }
        retarget_all_replays(last, rest);
        assert(entries.take(rest.len() as int) =~= rest);
        assert(entries.take(entries.len() as int) =~= entries);
        let mid = with_targets(last, rest);
        assert(targets_distinct(with_targets(last, entries.take(entries.len() as int))));
        assert(with_targets(last, entries) == put(mid, entries.last().0, entries.last().1));
        target_rows_put(mid, entries.last().0, entries.last().1);
        replay_concat(
            target_rows(last),
            retarget_all(last, rest),
            retarget(lookup(mid, entries.last().0), entries.last().1),
        );
    }
}

/// Output rows without those of some source rows.
pub open spec fn targets_left<K, K2, V2>(last: Map<K, (K2, V2)>, gone: Seq<K>) -> Map<K, (K2, V2)> {
    crate::map_values_cell::without_all(last, gone)
}

proof fn withdraw_all_replays<K, K2, V2>(last: Map<K, (K2, V2)>, gone: Seq<K>, n: nat)
    requires
        targets_distinct(last),
        gone.no_duplicates(),
        forall|k: K| gone.contains(k) ==> last.contains_key(k),
        n <= gone.len(),
    ensures
        fits_all(target_rows(last), withdraw_all(last, gone.take(n as int))),
        replay(target_rows(last), withdraw_all(last, gone.take(n as int))) == target_rows(
            targets_left(last, gone.take(n as int)),
        ),
    decreases n,
{
    if n == 0 {
        assert(withdraw_all(last, gone.take(0)) =~= Seq::empty());
        assert(targets_left(last, gone.take(0)) =~= last);
    } else {
        let m = (n - 1) as nat;
        withdraw_all_replays(last, gone, m);
        let k = gone[m as int];
        let mid = targets_left(last, gone.take(m as int));
        let after = targets_left(last, gone.take(n as int));
        assert(gone.contains(k));
        assert(!gone.take(m as int).contains(k));
        assert(mid.contains_key(k));
        crate::map_values_cell::without_all_next(last, gone, m as int);
        assert(put(mid, k, None) == after);
        target_rows_put(mid, k, None);
        let one = retarget(lookup(mid, k), None);
        assert(withdraw_all(last, gone.take(n as int)) =~= withdraw_all(last, gone.take(m as int))
            + one);
        replay_concat(target_rows(last), withdraw_all(last, gone.take(m as int)), one);
    }
}

/// No two source rows have output rows with the same key, after any part of a change.
pub open spec fn step_distinct<K, K2, V2>(
    last: Map<K, (K2, V2)>,
    change: Change<K, Option<(K2, V2)>>,
) -> bool {
    match change {
        Change::Initial { entries } => forall|i: int|
            0 <= i <= entries.len() ==> targets_distinct(
                #[trigger] with_targets(Map::<K, (K2, V2)>::empty(), entries.take(i)),
            ),
        _ => targets_distinct(target_step(last, change)),
    }
}

/// No two source rows have output rows with the same key, after any part of several changes.
pub open spec fn run_distinct<K, K2, V2>(
    last: Map<K, (K2, V2)>,
    steps: Seq<Change<K, Option<(K2, V2)>>>,
) -> bool {
    forall|i: int|
        0 <= i < steps.len() ==> step_distinct(
            #[trigger] target_run(last, steps.take(i)),
            steps[i],
        )
}

proof fn target_told_replays<K, K2, V2>(
    last: Map<K, (K2, V2)>,
    change: Change<K, Option<(K2, V2)>>,
    told: Seq<Change<K2, V2>>,
)
    requires
        targets_distinct(last),
        step_distinct(last, change),
        target_told(last, change, told),
    ensures
        targets_distinct(target_step(last, change)),
        fits_all(target_rows(last), told),
        replay(target_rows(last), told) == target_rows(target_step(last, change)),
{
    match change {
        Change::Initial { entries } => {
            let gone = choose|gone: Seq<K>| #[trigger]
                lists(gone, last.dom()) && told == withdraw_all(last, gone) + retarget_all(
                    Map::empty(),
                    entries,
                );
            withdraw_all_replays(last, gone, gone.len());
            assert(gone.take(gone.len() as int) =~= gone);
            let none = Map::<K, (K2, V2)>::empty();
            assert(targets_left(last, gone) =~= none);
            retarget_all_replays(none, entries);
            assert(entries.take(entries.len() as int) =~= entries);
            replay_concat(
                target_rows(last),
                withdraw_all(last, gone),
                retarget_all(none, entries),
            );
        },
        Change::Insert { key, value } => target_rows_put(last, key, value),
        Change::Remove { key, old_value } => target_rows_put(last, key, None),
        Change::Update { key, old_value, new_value } => target_rows_put(last, key, new_value),
    }
}

/// Where no two source rows ever have output rows with the same key, what is told fits the output
/// rows and leads from the old ones to the new ones.
pub proof fn told_run_replays<K, K2, V2>(
    last: Map<K, (K2, V2)>,
    steps: Seq<Change<K, Option<(K2, V2)>>>,
    told: Seq<Change<K2, V2>>,
)
    requires
        targets_distinct(last),
        run_distinct(last, steps),
        told_run(last, steps, told),
    ensures
        targets_distinct(target_run(last, steps)),
        fits_all(target_rows(last), told),
        replay(target_rows(last), told) == target_rows(target_run(last, steps)),
    decreases steps.len(),
{
    if steps.len() > 0 {
        let rest = steps.drop_last();
        let (a, b) = choose|a: Seq<Change<K2, V2>>, b: Seq<Change<K2, V2>>|
            told_run(last, rest, a) && #[trigger] target_told(target_run(last, rest), steps.last(), b)
                && told == #[trigger] (a + b);
        assert forall|i: int| 0 <= i < rest.len() implies step_distinct(
            #[trigger] target_run(last, rest.take(i)),
            rest[i],
        ) by {
            assert(rest.take(i) =~= steps.take(i));
            let _ = target_run(last, steps.take(i));
        }
        told_run_replays(last, rest, a);
        assert(steps.take(rest.len() as int) =~= rest);
        assert(step_distinct(target_run(last, steps.take(rest.len() as int)), steps[rest.len() as int]));
        target_told_replays(target_run(last, rest), steps.last(), b);
        replay_concat(target_rows(last), a, b);
    }
}

/// The output row that was told last of each source row.
#[verifier::reject_recursive_types(K)]
#[verifier::reject_recursive_types(K2)]
#[verifier::reject_recursive_types(V2)]
pub struct ProjectCellRuntime<K: MapKey, K2: MapKey, V2: CellValue> {
    last_emitted: FxMap<K, (K2, V2)>,
}

impl<K: MapKey, K2: MapKey, V2: CellValue> ProjectCellRuntime<K, K2, V2> {
    pub fn new() -> (runtime: Self)
        ensures
            runtime.last() == Map::<K::Model, (K2::Model, V2::Model)>::empty(),
    {
        ProjectCellRuntime { last_emitted: FxMap::new() }
    }

    /// The output row that was told last of each source row.
    pub closed spec fn last(&self) -> Map<K::Model, (K2::Model, V2::Model)> {
        self.last_emitted@
    }

    /// Follows what the cell of one source row says.
    fn apply_one(&mut self, key: &K, new: &Option<(K2, V2)>, out: &mut Vec<MapDiff<K2, V2>>)
        requires
            flat(old(out)@),
        ensures
            final(self).last() == put(old(self).last(), key.model(), new.model()),
            flat(final(out)@),
            steps_of(final(out)@) == steps_of(old(out)@) + retarget(
                lookup(old(self).last(), key.model()),
                new.model(),
            ),
    {
        let ghost last = self.last();
        let ghost k = key.model();
        let ghost had = out@;
        let ghost told = retarget(lookup(last, k), new.model());
        let before = match new {
            None => self.last_emitted.remove(key),
            Some(pair) => self.last_emitted.insert(key.clone_value(), pair.clone_value()),
        };
        assert(self.last() =~= put(last, k, new.model()));
        match (before, new) {
            (None, None) => {
                assert(steps_of(had) + told =~= steps_of(had));
            },
            (None, Some(pair)) => {
                let diff = MapDiff::Insert { key: pair.0.clone_value(), value: pair.1.clone_value() };
                proof {
                    steps_of_push(had, diff);
                    assert(diff.steps() =~= told);
                }
                out.push(diff);
            },
            (Some(old_pair), None) => {
                let diff = MapDiff::Remove { key: old_pair.0, old_value: old_pair.1 };
                proof {
                    steps_of_push(had, diff);
                    assert(diff.steps() =~= told);
                }
                out.push(diff);
            },
            (Some(old_pair), Some(pair)) => {
                if old_pair.0.equals(&pair.0) {
                    if old_pair.1.equals(&pair.1) {
                        assert(steps_of(had) + told =~= steps_of(had));
                    } else {
                        let diff = MapDiff::Update {
                            key: pair.0.clone_value(),
                            old_value: old_pair.1,
                            new_value: pair.1.clone_value(),
                        };
                        proof {
                            steps_of_push(had, diff);
                            assert(diff.steps() =~= told);
                        }
                        out.push(diff);
                    }
                } else {
                    let gone = MapDiff::Remove { key: old_pair.0, old_value: old_pair.1 };
                    let new_row = MapDiff::Insert {
                        key: pair.0.clone_value(),
                        value: pair.1.clone_value(),
                    };
                    proof {
                        steps_of_push(had, gone);
                        steps_of_push(had.push(gone), new_row);
                        assert(gone.steps() + new_row.steps() =~= told);
                        assert(steps_of(had) + gone.steps() + new_row.steps() =~= steps_of(had) + (
                        gone.steps() + new_row.steps()));
                    }
                    out.push(gone);
                    out.push(new_row);
                }
            },
        }
    }

    fn project_leaf(&mut self, leaf: &MapDiff<K, Option<(K2, V2)>>, out: &mut Vec<MapDiff<K2, V2>>) -> (told:
        Ghost<Seq<Change<K2::Model, V2::Model>>>)
        requires
            !(leaf is Batch),
            flat(old(out)@),
        ensures
            final(self).last() == target_step(old(self).last(), leaf.atom()),
            flat(final(out)@),
            target_told(old(self).last(), leaf.atom(), told@),
            steps_of(final(out)@) == steps_of(old(out)@) + told@,
    {
        let ghost last = self.last();
        let ghost from = steps_of(out@);
        let ghost mut told: Seq<Change<K2::Model, V2::Model>> = Seq::empty();
        match leaf {
            MapDiff::Initial { entries } => {
                let keys = self.last_emitted.keys();
                let ghost gone = models(keys@);
                let mut n: usize = 0;
                proof {
                    assert(withdraw_all(last, gone.take(0)) =~= Seq::empty());
                    assert(from + Seq::empty() =~= from);
                    assert(targets_left(last, gone.take(0)) =~= last);
                }
                while n < keys.len()
                    invariant
                        n <= keys@.len(),
                        gone == models(keys@),
                        lists(gone, last.dom()),
                        self.last() == targets_left(last, gone.take(n as int)),
                        flat(out@),
                        steps_of(out@) == from + withdraw_all(last, gone.take(n as int)),
                    decreases keys@.len() - n,
                {
                    let ghost k = gone[n as int];
                    let ghost sofar = withdraw_all(last, gone.take(n as int));
                    let ghost had = out@;
                    proof {
                        assert(gone.contains(k));
                        assert(last.dom().contains(k));
                        assert(!gone.take(n as int).contains(k));
                        crate::map_values_cell::without_all_next(last, gone, n as int);
                        assert(withdraw_all(last, gone.take(n + 1)) =~= sofar + retarget(
                            lookup(last, k),
                            None,
                        ));
                        assert(from + (sofar + retarget(lookup(last, k), None)) =~= (from + sofar)
                            + retarget(lookup(last, k), None));
                    }
                    match self.last_emitted.remove(&keys[n]) {
                        Some(pair) => {
                            let diff = MapDiff::Remove { key: pair.0, old_value: pair.1 };
                            proof {
                                steps_of_push(had, diff);
                                assert(diff.steps() =~= retarget(lookup(last, k), None));
                            }
                            out.push(diff);
                        },
                        None => {},
                    }
                    n += 1;
                }
                let ghost all = models(entries@);
                let ghost none = Map::<K::Model, (K2::Model, V2::Model)>::empty();
                let ghost first = withdraw_all(last, gone);
                let mut i: usize = 0;
                proof {
                    assert(gone.take(n as int) =~= gone);
                    assert(self.last() =~= none);
                    assert(all.take(0) =~= Seq::empty());
                    assert((from + first) + Seq::empty() =~= from + first);
                }
                while i < entries.len()
                    invariant
                        i <= entries@.len(),
                        all == models(entries@),
                        none == Map::<K::Model, (K2::Model, V2::Model)>::empty(),
                        self.last() == with_targets(none, all.take(i as int)),
                        flat(out@),
                        steps_of(out@) == (from + first) + retarget_all(none, all.take(i as int)),
                    decreases entries@.len() - i,
                {
                    let (key, value) = &entries[i];
                    let ghost part = all.take(i as int);
                    proof {
                        assert(all.take(i + 1).drop_last() =~= part);
                        assert(all.take(i + 1).last() == (key.model(), value.model()));
                        let one = retarget(lookup(with_targets(none, part), key.model()), value.model());
                        assert(((from + first) + retarget_all(none, part)) + one =~= (from + first) + (
                        retarget_all(none, part) + one));
                    }
                    self.apply_one(key, value, out);
                    i += 1;
                }
                proof {
                    assert(all.take(i as int) =~= all);
                    told = first + retarget_all(none, all);
                    assert(from + told =~= (from + first) + retarget_all(none, all));
                    assert(lists(gone, last.dom()));
                }
            },
            MapDiff::Insert { key, value } => {
                proof {
                    told = retarget(lookup(last, key.model()), value.model());
                }
                self.apply_one(key, value, out);
            },
            MapDiff::Update { key, new_value, .. } => {
                proof {
                    told = retarget(lookup(last, key.model()), new_value.model());
                }
                self.apply_one(key, new_value, out);
            },
            MapDiff::Remove { key, .. } => {
                let absent: Option<(K2, V2)> = None;
                proof {
                    told = retarget(lookup(last, key.model()), None);
                }
                self.apply_one(key, &absent, out);
            },
            MapDiff::Batch { .. } => {},
        }
        Ghost(told)
    }

    /// Follows a diff of what the cells say, and tells how the output rows change: one change as
    /// itself, several as a batch.
    pub fn project_diff(&mut self, diff: &MapDiff<K, Option<(K2, V2)>>) -> (emitted: Option<
        MapDiff<K2, V2>,
    >)
        ensures
            final(self).last() == target_run(old(self).last(), diff.steps()),
            emitted is None ==> told_run(old(self).last(), diff.steps(), Seq::empty()),
            emitted is Some ==> emitted->Some_0.steps().len() > 0 && told_run(
                old(self).last(),
                diff.steps(),
                emitted->Some_0.steps(),
            ) && (emitted->Some_0 is Batch == (emitted->Some_0.steps().len() > 1)) && (
            emitted->Some_0 is Batch ==> flat(emitted->Some_0->changes@)),
    {
        let ghost steps = diff.steps();
        let ghost last = self.last();
        let leaves = diff.leaves();
        let mut out: Vec<MapDiff<K2, V2>> = Vec::new();
        let mut i: usize = 0;
        proof {
            assert(steps.take(0) =~= Seq::empty());
            assert(steps_of(out@) =~= Seq::empty());
        }
        while i < leaves.len()
            invariant
                i <= leaves@.len(),
                all_leaves(leaves@),
                atoms(leaves@) == steps,
                self.last() == target_run(last, steps.take(i as int)),
                flat(out@),
                told_run(last, steps.take(i as int), steps_of(out@)),
            decreases leaves@.len() - i,
        {
            let ghost sofar = steps_of(out@);
            let told = self.project_leaf(leaves[i], &mut out);
            proof {
                assert(steps[i as int] == leaves@[i as int].atom());
                let part = steps.take(i + 1);
                assert(part.drop_last() =~= steps.take(i as int));
                assert(part.last() == steps[i as int]);
                assert(target_told(target_run(last, part.drop_last()), part.last(), told@));
                assert(steps_of(out@) == sofar + told@);
            }
            i += 1;
        }
        proof {
            assert(steps.take(i as int) =~= steps);
            crate::diff::steps_of_flat(out@);
        }
        if out.len() == 0 {
            assert(steps_of(out@) =~= Seq::empty());
            None
        } else if out.len() == 1 {
            let ghost all = out@;
            let only = out.pop();
            proof {
                assert(all =~= Seq::empty().push(all[0]));
                steps_of_push(Seq::<MapDiff<K2, V2>>::empty(), all[0]);
                assert(steps_of(Seq::<MapDiff<K2, V2>>::empty()) =~= Seq::empty());
                assert(steps_of(all) =~= all[0].steps());
            }
            only
        } else {
            Some(MapDiff::Batch { changes: out })
        }
    }
}

/// Rows whose output comes from cells: what the cells say, and the output rows that were told.
#[verifier::reject_recursive_types(K)]
#[verifier::reject_recursive_types(K2)]
#[verifier::reject_recursive_types(V2)]
#[verifier::reject_recursive_types(G)]
pub struct ProjectCellNode<K: MapKey, K2: MapKey, V2: CellValue, G> {
    pub rows: MapValuesRuntime<K, Option<(K2, V2)>, G>,
    pub targets: ProjectCellRuntime<K, K2, V2>,
}

impl<K: MapKey, K2: MapKey, V2: CellValue, G> ProjectCellNode<K, K2, V2, G> {
    /// The output rows are those that the cells say.
    pub open spec fn agrees(&self) -> bool {
        forall|k: K::Model| #[trigger]
            lookup(self.targets.last(), k) == (match lookup(self.rows.last(), k) {
                Some(row) => row,
                None => None,
            })
    }

    /// A node without rows.
    pub fn new() -> (node: Self)
        ensures
            node.targets.last() == Map::<K::Model, (K2::Model, V2::Model)>::empty(),
            node.rows.last() == Map::<K::Model, Option<(K2::Model, V2::Model)>>::empty(),
            node.rows.guards() == Map::<K::Model, G>::empty(),
            node.agrees(),
    {
        ProjectCellNode {
            rows: install_map_values_cell_via_query(),
            targets: ProjectCellRuntime::new(),
        }
    }

    /// Follows a diff of the source rows, in which each row has what its cell says, and tells how
    /// the output rows change.
    pub fn apply(&mut self, diff: &MapDiff<K, Option<(K2, V2)>>) -> (emitted: Vec<MapDiff<K2, V2>>)
        ensures
            final(self).rows.last() == replay(old(self).rows.last(), diff.steps()),
            final(self).rows.guards() == old(self).rows.guards(),
            exists|said: Seq<Change<K::Model, Option<(K2::Model, V2::Model)>>>|
                cell_run(old(self).rows.last(), diff.steps(), said) && #[trigger] told_run(
                    old(self).targets.last(),
                    said,
                    steps_of(emitted@),
                ) && final(self).targets.last() == target_run(old(self).targets.last(), said),
            old(self).agrees() ==> final(self).agrees(),
            forall|i: int|
                0 <= i < emitted@.len() ==> (#[trigger] emitted@[i]).steps().len() > 0,
    {
        let ghost last = self.targets.last();
        let ghost had = self.rows.last();
        let diffs = self.rows.apply(diff);
        let ghost said = steps_of(diffs@);
        let ghost rows = self.rows;
        let mut emitted: Vec<MapDiff<K2, V2>> = Vec::new();
        let mut i: usize = 0;
        proof {
            assert(steps_of(diffs@.take(0)) =~= Seq::empty());
            assert(steps_of(emitted@) =~= Seq::empty());
        }
        while i < diffs.len()
            invariant
                i <= diffs@.len(),
                self.rows == rows,
                self.targets.last() == target_run(last, steps_of(diffs@.take(i as int))),
                told_run(last, steps_of(diffs@.take(i as int)), steps_of(emitted@)),
                forall|n: int|
                    0 <= n < emitted@.len() ==> (#[trigger] emitted@[n]).steps().len() > 0,
            decreases diffs@.len() - i,
        {
            let ghost sofar = steps_of(emitted@);
            let ghost before = steps_of(diffs@.take(i as int));
            let ghost out = emitted@;
            proof {
                assert(diffs@.take(i + 1) =~= diffs@.take(i as int).push(diffs@[i as int]));
                steps_of_push(diffs@.take(i as int), diffs@[i as int]);
            }
            match self.targets.project_diff(&diffs[i]) {
                Some(change) => {
                    proof {
                        steps_of_push(out, change);
                        told_run_concat(last, before, diffs@[i as int].steps(), sofar, change.steps());
                    }
                    emitted.push(change);
                },
                None => {
                    proof {
                        told_run_concat(last, before, diffs@[i as int].steps(), sofar, Seq::empty());
                        assert(sofar + Seq::empty() =~= sofar);
                    }
                },
            }
            i += 1;
        }
        proof {
            assert(diffs@.take(i as int) =~= diffs@);
            crate::map_values_cell::cell_run_replays(had, diff.steps(), said);
            if old(self).agrees() {
                target_run_agrees(had, last, said);
            }
        }
        emitted
    }

    /// Follows what the cell of one row says anew, and tells how the output rows change.
    pub fn emit(&mut self, key: K, value: Option<(K2, V2)>) -> (emitted: Option<MapDiff<K2, V2>>)
        ensures
            final(self).rows.last() == old(self).rows.last().insert(key.model(), value.model()),
            final(self).rows.guards() == old(self).rows.guards(),
            lookup(old(self).rows.last(), key.model()) == Some(value.model()) ==> emitted is None
                && final(self).targets == old(self).targets,
            lookup(old(self).rows.last(), key.model()) != Some(value.model()) ==> {
                &&& final(self).targets.last() == put(
                    old(self).targets.last(),
                    key.model(),
                    value.model(),
                )
                &&& emitted is None ==> retarget(
                    lookup(old(self).targets.last(), key.model()),
                    value.model(),
                ).len() == 0
                &&& emitted is Some ==> emitted->Some_0.steps() == retarget(
                    lookup(old(self).targets.last(), key.model()),
                    value.model(),
                ) && emitted->Some_0.steps().len() > 0
            },
            old(self).agrees() ==> final(self).agrees(),
    {
        let ghost last = self.targets.last();
        let ghost k = key.model();
        let ghost v = value.model();
        match self.rows.emit(key, value) {
            Some(diff) => {
                let emitted = self.targets.project_diff(&diff);
                proof {
                    let steps = diff.steps();
                    assert(steps.len() == 1);
                    assert(steps.drop_last() =~= Seq::empty());
                    assert(target_run(last, steps.drop_last()) == last);
                    let told = if emitted is Some {
                        emitted->Some_0.steps()
                    } else {
                        Seq::empty()
                    };
                    assert(told_run(last, steps, told));
                    let (a, b) = choose|a: Seq<Change<K2::Model, V2::Model>>, b: Seq<Change<K2::Model, V2::Model>>|
                        told_run(last, steps.drop_last(), a) && #[trigger] target_told(
                            target_run(last, steps.drop_last()),
                            steps.last(),
                            b,
                        ) && told == #[trigger] (a + b);
                    assert(told =~= b);
                    assert(b == retarget(lookup(last, k), v));
                }
                emitted
            },
            None => None,
        }
    }
}

proof fn told_run_concat<K, K2, V2>(
    last: Map<K, (K2, V2)>,
    a: Seq<Change<K, Option<(K2, V2)>>>,
    b: Seq<Change<K, Option<(K2, V2)>>>,
    told_a: Seq<Change<K2, V2>>,
    told_b: Seq<Change<K2, V2>>,
)
    requires
        told_run(last, a, told_a),
        told_run(target_run(last, a), b, told_b),
    ensures
        target_run(last, a + b) == target_run(target_run(last, a), b),
        told_run(last, a + b, told_a + told_b),
    decreases b.len(),
{
    if b.len() == 0 {
        assert(a + b =~= a);
        assert(told_a + told_b =~= told_a);
    } else {
        let rest = b.drop_last();
        let mid = target_run(last, a);
        let (c, d) = choose|c: Seq<Change<K2, V2>>, d: Seq<Change<K2, V2>>|
            told_run(mid, rest, c) && #[trigger] target_told(target_run(mid, rest), b.last(), d)
                && told_b == #[trigger] (c + d);
        told_run_concat(last, a, rest, told_a, c);
        assert((a + b).drop_last() =~= a + rest);
        assert((a + b).last() == b.last());
        assert(told_a + told_b =~= (told_a + c) + d);
        assert(target_told(target_run(last, (a + b).drop_last()), (a + b).last(), d));
    }
}

proof fn put_agrees<K, K2, V2>(
    rows: Map<K, Option<(K2, V2)>>,
    last: Map<K, (K2, V2)>,
    k: K,
    new: Option<(K2, V2)>,
)
    requires
        forall|x: K| #[trigger]
            lookup(last, x) == (match lookup(rows, x) {
                Some(row) => row,
                None => None,
            }),
    ensures
        forall|x: K| #[trigger]
            lookup(put(last, k, new), x) == (match lookup(rows.insert(k, new), x) {
                Some(row) => row,
                None => None,
            }),
{
    assert forall|x: K| #[trigger]
        lookup(put(last, k, new), x) == (match lookup(rows.insert(k, new), x) {
            Some(row) => row,
            None => None,
        }) by {
        let _ = lookup(last, x);
    }
}

proof fn with_targets_agrees<K, K2, V2>(entries: Seq<(K, Option<(K2, V2)>)>)
    ensures
        forall|x: K| #[trigger]
            lookup(with_targets(Map::<K, (K2, V2)>::empty(), entries), x) == (match lookup(
                crate::diff::entries_map(entries),
                x,
            ) {
                Some(row) => row,
                None => None,
            }),
    decreases entries.len(),
{
    if entries.len() > 0 {
        with_targets_agrees(entries.drop_last());
        put_agrees(
            crate::diff::entries_map(entries.drop_last()),
            with_targets(Map::<K, (K2, V2)>::empty(), entries.drop_last()),
            entries.last().0,
            entries.last().1,
        );
    }
}

proof fn target_run_agrees<K, K2, V2>(
    rows: Map<K, Option<(K2, V2)>>,
    last: Map<K, (K2, V2)>,
    steps: Seq<Change<K, Option<(K2, V2)>>>,
)
    requires
        forall|k: K| #[trigger]
            lookup(last, k) == (match lookup(rows, k) {
                Some(row) => row,
                None => None,
            }),
    ensures
        forall|k: K| #[trigger]
            lookup(target_run(last, steps), k) == (match lookup(replay(rows, steps), k) {
                Some(row) => row,
                None => None,
            }),
    decreases steps.len(),
{
    if steps.len() > 0 {
        let rest = steps.drop_last();
        target_run_agrees(rows, last, rest);
        let r = replay(rows, rest);
        let l = target_run(last, rest);
        match steps.last() {
            Change::Initial { entries } => with_targets_agrees(entries),
            Change::Insert { key, value } => put_agrees(r, l, key, value),
            Change::Remove { key, old_value } => {
                assert forall|x: K| #[trigger]
                    lookup(put(l, key, None), x) == (match lookup(r.remove(key), x) {
                        Some(row) => row,
                        None => None,
                    }) by {
                    let _ = lookup(l, x);
                }
            },
            Change::Update { key, old_value, new_value } => put_agrees(r, l, key, new_value),
        }
    }
}

/// Rows whose output comes from cells: a function makes a cell for each source row, and what the cell
/// says is the output row, if any.
pub struct ProjectCellPlan<S, K, V, K2, V2, W, F> {
    pub source: S,
    pub mapper: F,
    pub types: PhantomData<(K, V, K2, V2, W)>,
}

impl<
    S: MapQuery<Key = K, Value = V>,
    K: MapKey,
    V: CellValue,
    K2: MapKey,
    V2: CellValue,
    W,
    F: Fn(&K, &V) -> W + Send + Sync + 'static,
> PlanProperties for ProjectCellPlan<S, K, V, K2, V2, W, F> {
    type Cardinality = ZeroOrOne;

    type InputPartition = S::OutputPartition;

    type OutputPartition = Repartition<K2>;
}

impl<
    S: MapQuery<Key = K, Value = V>,
    K: MapKey,
    V: CellValue,
    K2: MapKey,
    V2: CellValue,
    W,
    F: Fn(&K, &V) -> W + Send + Sync + 'static,
> MapQuery for ProjectCellPlan<S, K, V, K2, V2, W, F> {
    type Key = K2;

    type Value = V2;

    open spec fn raw_source(&self) -> bool {
        false
    }

    fn is_raw_source(&self) -> (raw: bool)
        ensures
            !raw,
    {
        false
    }
}

impl<S, K: MapKey, V: CellValue, K2: MapKey, V2: CellValue, W, F> ProjectCellPlan<
    S,
    K,
    V,
    K2,
    V2,
    W,
    F,
> {
    /// The source, the function that makes the cells, and the node to put behind them.
    pub fn build_into<G>(self) -> (built: (S, F, ProjectCellNode<K, K2, V2, G>))
        ensures
            built.0 == self.source,
            built.1 == self.mapper,
            built.2.agrees(),
            built.2.targets.last() == Map::<K::Model, (K2::Model, V2::Model)>::empty(),
            built.2.rows.last() == Map::<K::Model, Option<(K2::Model, V2::Model)>>::empty(),
            built.2.rows.guards() == Map::<K::Model, G>::empty(),
    {
        (self.source, self.mapper, ProjectCellNode::new())
    }
}

/// Rows whose output comes from cells.
pub trait ProjectCellExt<K: MapKey, V: CellValue>: MapQuery<Key = K, Value = V> {
    /// Gives each row a cell; what the cell says is the output row, if any.
    fn project_cell<
        K2: MapKey,
        V2: CellValue,
        W,
        F: Fn(&K, &V) -> W + Send + Sync + 'static,
    >(self, mapper: F) -> (plan: ProjectCellPlan<Self, K, V, K2, V2, W, F>)
        ensures
            plan.source == self,
            plan.mapper == mapper,
    {
        ProjectCellPlan { source: self, mapper, types: PhantomData }
    }
}

impl<K: MapKey, V: CellValue, M: MapQuery<Key = K, Value = V>> ProjectCellExt<K, V> for M {

}

/// The output rows are those that the cells say, after changes as before.
pub proof fn cells_agree<K, K2, V2>(
    rows: Map<K, Option<(K2, V2)>>,
    last: Map<K, (K2, V2)>,
    said: Seq<Change<K, Option<(K2, V2)>>>,
)
    requires
        forall|k: K| #[trigger]
            last.contains_key(k) == (rows.contains_key(k) && rows[k] is Some),
        forall|k: K| #[trigger] last.contains_key(k) ==> Some(last[k]) == rows[k],
    ensures
        forall|k: K| #[trigger]
            lookup(target_run(last, said), k) == (match lookup(replay(rows, said), k) {
                Some(row) => row,
                None => None,
            }),
{
    assert forall|k: K| #[trigger] lookup(last, k) == (match lookup(rows, k) {
        Some(row) => row,
        None => None,
    }) by {
        let _ = last.contains_key(k);
    }
    target_run_agrees(rows, last, said);
}

/// What is told of a source row whose output row becomes another: nothing where it stays the same; one
/// update where it keeps its key; and where it gets another key, that the old row goes and then that the
/// new one comes.
pub proof fn told_of_an_output_row<K2, V2>(before: Option<(K2, V2)>, after: Option<(K2, V2)>)
    ensures
        before == after ==> retarget(before, after).len() == 0,
        before is None && after is Some ==> retarget(before, after) == seq![
            Change::Insert { key: after->Some_0.0, value: after->Some_0.1 },
        ],
        before is Some && after is None ==> retarget(before, after) == seq![
            Change::Remove { key: before->Some_0.0, old_value: before->Some_0.1 },
        ],
        before is Some && after is Some && before->Some_0.0 == after->Some_0.0 && before->Some_0.1
            != after->Some_0.1 ==> retarget(before, after) == seq![
            Change::Update {
                key: before->Some_0.0,
                old_value: before->Some_0.1,
                new_value: after->Some_0.1,
            },
        ],
        before is Some && after is Some && before->Some_0.0 != after->Some_0.0 ==> retarget(before, after)
            == seq![
            Change::Remove { key: before->Some_0.0, old_value: before->Some_0.1 },
            Change::Insert { key: after->Some_0.0, value: after->Some_0.1 },
        ],
{
}

/// The output rows of all source rows are those that some source row has, each under its key.
pub proof fn output_rows_of_all<K, K2, V2>(last: Map<K, (K2, V2)>)
    requires
        targets_distinct(last),
    ensures
        forall|k: K| #[trigger]
            last.contains_key(k) ==> target_rows(last).contains_key(last[k].0) && target_rows(
                last,
            )[last[k].0] == last[k].1,
        forall|o: K2| #[trigger]
            target_rows(last).contains_key(o) ==> exists|k: K| #[trigger]
                last.contains_key(k) && last[k].0 == o,
{
    assert forall|k: K| #[trigger] last.contains_key(k) implies target_rows(last).contains_key(
        last[k].0,
    ) && target_rows(last)[last[k].0] == last[k].1 by {
        target_rows_at(last, k);
    }
    assert forall|o: K2| #[trigger] target_rows(last).contains_key(o) implies exists|k: K| #[trigger]
        last.contains_key(k) && last[k].0 == o by {
        let k = choose|k: K| #[trigger] targets(last, k, o);
        assert(last.contains_key(k) && last[k].0 == o);
    }
}

/// Rows whose output comes from cells: where what was told has led to the rows that the cells said, and
/// no two cells ever say rows with the same key, what is told of changes of what they say leads to the
/// rows that they then say, each under its key, and to no other.
pub proof fn output_of_cells<K, K2, V2>(
    rows: Map<K, Option<(K2, V2)>>,
    last: Map<K, (K2, V2)>,
    said: Seq<Change<K, Option<(K2, V2)>>>,
    told: Seq<Change<K2, V2>>,
)
    requires
        forall|k: K| #[trigger]
            last.contains_key(k) == (rows.contains_key(k) && rows[k] is Some),
        forall|k: K| #[trigger] last.contains_key(k) ==> Some(last[k]) == rows[k],
        targets_distinct(last),
        run_distinct(last, said),
        told_run(last, said, told),
    ensures
        fits_all(target_rows(last), told),
        forall|k: K| #[trigger]
            replay(rows, said).contains_key(k) && replay(rows, said)[k] is Some ==> {
                let row = replay(rows, said)[k]->Some_0;
                replay(target_rows(last), told).contains_key(row.0) && replay(
                    target_rows(last),
                    told,
                )[row.0] == row.1
            },
        forall|o: K2| #[trigger]
            replay(target_rows(last), told).contains_key(o) ==> exists|k: K| #[trigger]
                replay(rows, said).contains_key(k) && replay(rows, said)[k] is Some && replay(
                    rows,
                    said,
                )[k]->Some_0.0 == o,
{
    cells_agree(rows, last, said);
    told_run_replays(last, said, told);
    let after = target_run(last, said);
    let now = replay(rows, said);
    output_rows_of_all(after);
    assert forall|k: K| #[trigger] now.contains_key(k) && now[k] is Some implies {
        let row = now[k]->Some_0;
        target_rows(after).contains_key(row.0) && target_rows(after)[row.0] == row.1
    } by {
        assert(lookup(after, k) == now[k]);
        assert(after.contains_key(k));
    }
    assert forall|o: K2| #[trigger] target_rows(after).contains_key(o) implies exists|k: K| #[trigger]
        now.contains_key(k) && now[k] is Some && now[k]->Some_0.0 == o by {
        let k = choose|k: K| #[trigger] after.contains_key(k) && after[k].0 == o;
        assert(lookup(after, k) == Some(after[k]));
        assert(now.contains_key(k) && now[k] is Some && now[k]->Some_0.0 == o);
    }
}

proof fn with_targets_named<K, K2, V2>(entries: Seq<(K, Option<(K2, V2)>)>, k: K)
    requires
        with_targets(Map::<K, (K2, V2)>::empty(), entries).contains_key(k),
    ensures
        exists|i: int| 0 <= i < entries.len() && (#[trigger] entries[i]).0 == k,
    decreases entries.len(),
{
    if entries.len() > 0 {
        let rest = entries.drop_last();
        if entries.last().0 == k {
            assert(entries[entries.len() - 1].0 == k);
        } else {
            with_targets_named(rest, k);
            let i = choose|i: int| 0 <= i < rest.len() && (#[trigger] rest[i]).0 == k;
            assert(entries[i].0 == k);
        }
    }
}

/// A new beginning of what cells say tells, entry by entry, that the row that the cell says comes, and
/// nothing of a cell that says none.
pub proof fn rows_of_a_new_beginning<K, K2, V2>(entries: Seq<(K, Option<(K2, V2)>)>, i: int)
    requires
        0 <= i < entries.len(),
        forall|a: int, b: int|
            0 <= a < b < entries.len() ==> (#[trigger] entries[a]).0 != (#[trigger] entries[b]).0,
    ensures
        retarget_all(Map::<K, (K2, V2)>::empty(), entries.take(0)).len() == 0,
        retarget_all(Map::<K, (K2, V2)>::empty(), entries.take(i + 1)) == retarget_all(
            Map::<K, (K2, V2)>::empty(),
            entries.take(i),
        ) + (match entries[i].1 {
            Some(row) => seq![Change::Insert { key: row.0, value: row.1 }],
            None => Seq::empty(),
        }),
        retarget_all(Map::<K, (K2, V2)>::empty(), entries.take(entries.len() as int)) == retarget_all(
            Map::<K, (K2, V2)>::empty(),
            entries,
        ),
{
    let part = entries.take(i + 1);
    let rest = entries.take(i);
    assert(part.drop_last() =~= rest);
    assert(part.last() == entries[i]);
    assert(entries.take(entries.len() as int) =~= entries);
    let before = with_targets(Map::<K, (K2, V2)>::empty(), rest);
    if before.contains_key(entries[i].0) {
        with_targets_named(rest, entries[i].0);
        let n = choose|n: int| 0 <= n < rest.len() && (#[trigger] rest[n]).0 == entries[i].0;
        assert(entries[n].0 == entries[i].0);
    }
}

/// A new beginning of what cells say: first `gone`, the rows that were there, go, each once, and then come
/// the rows that the cells say.
pub proof fn new_beginning_of_output<K, K2, V2>(
    last: Map<K, (K2, V2)>,
    entries: Seq<(K, Option<(K2, V2)>)>,
    told: Seq<Change<K2, V2>>,
) -> (gone: Seq<K>)
    requires
        target_told(last, Change::Initial { entries }, told),
    ensures
        lists(gone, last.dom()),
        told == Seq::new(
            gone.len(),
            |i: int| Change::Remove { key: last[gone[i]].0, old_value: last[gone[i]].1 },
        ) + retarget_all(Map::empty(), entries),
{
    let gone = choose|gone: Seq<K>| #[trigger]
        lists(gone, last.dom()) && told == withdraw_all(last, gone) + retarget_all(
            Map::empty(),
            entries,
        );
    assert(withdraw_all(last, gone) =~= Seq::new(
        gone.len(),
        |i: int| Change::Remove { key: last[gone[i]].0, old_value: last[gone[i]].1 },
    ));
    gone
}

} // verus!
