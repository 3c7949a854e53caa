//! Rows with flags that change on their own.
use std::marker::PhantomData;
use vstd::prelude::*;

use crate::diff::{fits_all, replay, Change};
use crate::fx::lookup;
use crate::project_cell::{
    cells_agree, output_rows_of_all, step_distinct, target_rows, target_run, target_step, targets_distinct, told_run,
    told_run_replays, with_targets, ProjectCellNode,
};
use crate::query::{MapQuery, PlanProperties, ZeroOrOne};
use crate::value::{CellValue, MapKey};

verus! {

/// The rows whose flags are set: a function makes a flag for each row, a cell that is true or false.
pub struct SelectCellPlan<S, K, V, W, F> {
    pub source: S,
    pub predicate: F,
    pub types: PhantomData<(K, V, W)>,
}

impl<
    S: MapQuery<Key = K, Value = V>,
    K: MapKey,
    V: CellValue,
    W,
    F: Fn(&K, &V) -> W + Send + Sync + 'static,
> PlanProperties for SelectCellPlan<S, K, V, W, F> {
    type Cardinality = ZeroOrOne;

    type InputPartition = S::OutputPartition;

    type OutputPartition = S::OutputPartition;
}

impl<
    S: MapQuery<Key = K, Value = V>,
    K: MapKey,
    V: CellValue,
    W,
    F: Fn(&K, &V) -> W + Send + Sync + 'static,
> MapQuery for SelectCellPlan<S, K, V, W, F> {
    type Key = K;

    type Value = V;

    open spec fn raw_source(&self) -> bool {
        false
    }

    fn is_raw_source(&self) -> (raw: bool)
        ensures
            !raw,
    {
        false
    }
}

/// The output row of a source row with a flag: the row itself where its flag is set.
pub fn flagged_row<K: MapKey, V: CellValue>(
    key: &K,
    value: &V,
    is_set: bool,
) -> (row: Option<(K, V)>)
    ensures
        row.model() == (if is_set {
            Some((key.model(), value.model()))
        } else {
            None
        }),
{
    if is_set {
        Some((key.clone_value(), value.clone_value()))
    } else {
        None
    }
}

impl<S, K: MapKey, V: CellValue, W, F> SelectCellPlan<S, K, V, W, F> {
    /// The source, the function that makes the flags, and the node to put behind them. A flag says
    /// its row to the node where it is set, and nothing where it is not.
    pub fn build_into<G>(self) -> (built: (S, F, ProjectCellNode<K, K, V, G>))
        ensures
            built.0 == self.source,
            built.1 == self.predicate,
            built.2.agrees(),
            built.2.targets.last() == Map::<K::Model, (K::Model, V::Model)>::empty(),
            built.2.rows.last() == Map::<K::Model, Option<(K::Model, V::Model)>>::empty(),
            built.2.rows.guards() == Map::<K::Model, G>::empty(),
    {
        (self.source, self.predicate, ProjectCellNode::new())
    }
}

/// The output row of each source row has the key of that source row.
pub open spec fn own_rows<K, V>(last: Map<K, (K, V)>) -> bool {
    forall|k: K| #[trigger] last.contains_key(k) ==> last[k].0 == k
}

/// What a flag says of a row: the row itself, or nothing.
pub open spec fn own_row<K, V>(k: K, row: Option<(K, V)>) -> bool {
    row is Some ==> row->Some_0.0 == k
}

/// Flags say nothing but the rows themselves.
pub open spec fn flags_say<K, V>(change: Change<K, Option<(K, V)>>) -> bool {
    match change {
        Change::Initial { entries } => forall|i: int|
            0 <= i < entries.len() ==> own_row((#[trigger] entries[i]).0, entries[i].1),
        Change::Insert { key, value } => own_row(key, value),
        Change::Remove { key, old_value } => true,
        Change::Update { key, old_value, new_value } => own_row(key, new_value),
    }
}

proof fn own_entries<K, V>(entries: Seq<(K, Option<(K, V)>)>)
    requires
        forall|i: int| 0 <= i < entries.len() ==> own_row((#[trigger] entries[i]).0, entries[i].1),
    ensures
        own_rows(with_targets(Map::<K, (K, V)>::empty(), entries)),
    decreases entries.len(),
{
    if entries.len() > 0 {
        let rest = entries.drop_last();
        assert forall|i: int| 0 <= i < rest.len() implies own_row(
            (#[trigger] rest[i]).0,
            rest[i].1,
        ) by {
            assert(rest[i] == entries[i]);
        }
        own_entries(rest);
        assert(own_row(entries[entries.len() - 1].0, entries[entries.len() - 1].1));
    }
}

proof fn own_run<K, V>(last: Map<K, (K, V)>, steps: Seq<Change<K, Option<(K, V)>>>)
    requires
        own_rows(last),
        forall|i: int| 0 <= i < steps.len() ==> flags_say(#[trigger] steps[i]),
    ensures
        own_rows(target_run(last, steps)),
    decreases steps.len(),
{
    if steps.len() > 0 {
        let rest = steps.drop_last();
        assert forall|i: int| 0 <= i < rest.len() implies flags_say(#[trigger] rest[i]) by {
            assert(rest[i] == steps[i]);
        }
        own_run(last, rest);
        assert(flags_say(steps[steps.len() - 1]));
        match steps.last() {
            Change::Initial { entries } => own_entries(entries),
            _ => {},
        }
    }
}

/// Rows with flags: what is told fits the rows that were there, and leads to the rows whose flags
/// are set.
pub proof fn flagged_rows_follow<K, V>(
    last: Map<K, (K, V)>,
    steps: Seq<Change<K, Option<(K, V)>>>,
    told: Seq<Change<K, V>>,
)
    requires
        own_rows(last),
        forall|i: int| 0 <= i < steps.len() ==> flags_say(#[trigger] steps[i]),
        told_run(last, steps, told),
    ensures
        own_rows(target_run(last, steps)),
        fits_all(target_rows(last), told),
        replay(target_rows(last), told) == target_rows(target_run(last, steps)),
{
    own_run(last, steps);
    assert forall|n: int| 0 <= n < steps.len() implies step_distinct(
        #[trigger] target_run(last, steps.take(n)),
        steps[n],
    ) by {
        let part = steps.take(n);
        assert forall|i: int| 0 <= i < part.len() implies flags_say(#[trigger] part[i]) by {
            assert(part[i] == steps[i]);
        }
        own_run(last, part);
        let before = target_run(last, part);
        assert(flags_say(steps[n]));
        match steps[n] {
            Change::Initial { entries } => {
                assert forall|i: int| 0 <= i <= entries.len() implies targets_distinct(
                    #[trigger] with_targets(Map::<K, (K, V)>::empty(), entries.take(i)),
                ) by {
                    let some = entries.take(i);
                    assert forall|m: int| 0 <= m < some.len() implies own_row(
                        (#[trigger] some[m]).0,
                        some[m].1,
                    ) by {
                        assert(some[m] == entries[m]);
                    }
                    own_entries(some);
                }
            },
            _ => {
                assert(own_rows(target_step(before, steps[n])));
            },
        }
    }
    told_run_replays(last, steps, told);
}

/// Rows with flags.
pub trait SelectCellExt<K: MapKey, V: CellValue>: MapQuery<Key = K, Value = V> {
    /// Gives each row a flag; the row is there while its flag is set.
    fn select_cell<W, F: Fn(&K, &V) -> W + Send + Sync + 'static>(self, predicate: F) -> (plan:
        SelectCellPlan<Self, K, V, W, F>)
        ensures
            plan.source == self,
            plan.predicate == predicate,
    {
        SelectCellPlan { source: self, predicate, types: PhantomData }
    }
}

impl<K: MapKey, V: CellValue, M: MapQuery<Key = K, Value = V>> SelectCellExt<K, V> for M {

}

/// Rows with flags: where what was told has led to the rows whose flags were set, what is told of
/// changes of the flags leads to the rows whose flags then are set, as they are, and to no other.
pub proof fn rows_with_flags_set<K, V>(
    rows: Map<K, Option<(K, V)>>,
    last: Map<K, (K, V)>,
    said: Seq<Change<K, Option<(K, V)>>>,
    told: Seq<Change<K, V>>,
    k: K,
)
    requires
        forall|x: K| #[trigger]
            last.contains_key(x) == (rows.contains_key(x) && rows[x] is Some),
        forall|x: K| #[trigger] last.contains_key(x) ==> Some(last[x]) == rows[x],
        own_rows(last),
        forall|i: int| 0 <= i < said.len() ==> flags_say(#[trigger] said[i]),
        told_run(last, said, told),
    ensures
        replay(target_rows(last), told).contains_key(k) == (replay(rows, said).contains_key(k) && replay(
            rows,
            said,
        )[k] is Some),
        replay(target_rows(last), told).contains_key(k) ==> replay(rows, said)[k] == Some(
            (k, replay(target_rows(last), told)[k]),
        ),
{
    flagged_rows_follow(last, said, told);
    let after = target_run(last, said);
    cells_agree(rows, last, said);
    output_rows_of_all(after);
    let now = replay(rows, said);
    assert(lookup(after, k) == (match lookup(now, k) {
        Some(row) => row,
        None => None,
    }));
    if after.contains_key(k) {
        assert(after[k].0 == k);
        assert(target_rows(after).contains_key(k));
    }
    if target_rows(after).contains_key(k) {
        let x = choose|x: K| #[trigger] after.contains_key(x) && after[x].0 == k;
        assert(x == k);
    }
}

} // verus!
