//! Changes of keyed maps, and what replaying them does to a map.
use vstd::prelude::*;

use crate::fx::lookup;
use crate::value::{clone_values, models, CellValue};

verus! {

/// A change of a keyed map, as a map tells it to those that follow it.
#[derive(Debug, PartialEq)]
pub enum MapDiff<K, V> {
    /// The whole contents, replacing what was there.
    Initial { entries: Vec<(K, V)> },
    /// A key that held nothing now holds a value.
    Insert { key: K, value: V },
    /// A key no longer holds its value.
    Remove { key: K, old_value: V },
    /// A key that held a value now holds another.
    Update { key: K, old_value: V, new_value: V },
    /// Changes that happen in order, as one.
    Batch { changes: Vec<MapDiff<K, V>> },
}

/// The mathematical value of a change that is not a batch.
pub enum Change<K, V> {
    Initial { entries: Seq<(K, V)> },
    Insert { key: K, value: V },
    Remove { key: K, old_value: V },
    Update { key: K, old_value: V, new_value: V },
}

/// The mathematical value of a diff: one change, or a batch of diffs in order.
pub enum DiffTree<K, V> {
    Leaf(Change<K, V>),
    Batch(Seq<DiffTree<K, V>>),
}

impl<K: CellValue, V: CellValue> MapDiff<K, V> {
    /// What a diff stands for, with batches as they are nested.
    pub open spec fn tree(&self) -> DiffTree<K::Model, V::Model>
        decreases self,
    {
        match self {
            MapDiff::Batch { changes } => DiffTree::Batch(Self::trees(changes@)),
            _ => DiffTree::Leaf(self.atom()),
        }
    }

    /// What several diffs stand for, in order.
    pub open spec fn trees(diffs: Seq<MapDiff<K, V>>) -> Seq<DiffTree<K::Model, V::Model>>
        decreases diffs,
    {
        if diffs.len() == 0 {
            Seq::empty()
        } else {
            Self::trees(diffs.drop_last()).push(diffs.last().tree())
        }
    }

    /// The change that a diff other than a batch stands for.
    pub open spec fn atom(&self) -> Change<K::Model, V::Model> {
        match self {
            MapDiff::Initial { entries } => Change::Initial { entries: models(entries@) },
            MapDiff::Insert { key, value } => Change::Insert {
                key: key.model(),
                value: value.model(),
            },
            MapDiff::Remove { key, old_value } => Change::Remove {
                key: key.model(),
                old_value: old_value.model(),
            },
            MapDiff::Update { key, old_value, new_value } => Change::Update {
                key: key.model(),
                old_value: old_value.model(),
                new_value: new_value.model(),
            },
            MapDiff::Batch { changes } => arbitrary(),
        }
    }

    /// The changes of a diff in the order in which they happen, batches opened up.
    pub open spec fn steps(&self) -> Seq<Change<K::Model, V::Model>>
        decreases self,
    {
        match self {
            MapDiff::Batch { changes } => Self::steps_of(changes@),
            _ => seq![self.atom()],
        }
    }

    /// The changes of several diffs, one diff after the other.
    pub open spec fn steps_of(diffs: Seq<MapDiff<K, V>>) -> Seq<Change<K::Model, V::Model>>
        decreases diffs,
    {
        if diffs.len() == 0 {
            Seq::empty()
        } else {
            Self::steps_of(diffs.drop_last()) + diffs.last().steps()
        }
    }

    fn collect_leaves<'a>(&'a self, leaves: &mut Vec<&'a MapDiff<K, V>>)
        requires
            all_leaves(old(leaves)@),
        ensures
            all_leaves(final(leaves)@),
            atoms(final(leaves)@) == atoms(old(leaves)@) + self.steps(),
        decreases self,
    {
        match self {
            MapDiff::Batch { changes } => {
                let mut i: usize = 0;
                proof {
                    assert(Self::steps_of(changes@.take(0)) =~= Seq::empty());
                    assert(atoms(leaves@) =~= atoms(old(leaves)@) + Self::steps_of(changes@.take(0)));
                }
                while i < changes.len()
                    invariant
                        i <= changes@.len(),
                        *self matches MapDiff::Batch { changes: c } && c == *changes,
                        all_leaves(leaves@),
                        atoms(leaves@) == atoms(old(leaves)@) + Self::steps_of(changes@.take(i as int)),
                    decreases changes@.len() - i,
                {
                    proof {
                        assert(changes@.take(i + 1).drop_last() =~= changes@.take(i as int));
                        assert(changes@.take(i + 1).last() == changes@[i as int]);
                    }
                    let ghost before = leaves@;
                    changes[i].collect_leaves(leaves);
                    proof {
                        assert(atoms(leaves@) =~= atoms(old(leaves)@) + Self::steps_of(
                            changes@.take(i + 1),
                        ));
                    }
                    i += 1;
                }
                assert(changes@.take(changes@.len() as int) =~= changes@);
            },
            _ => {
                let ghost before = leaves@;
                leaves.push(self);
                assert(atoms(leaves@) =~= atoms(before) + self.steps());
            },
        }
    }

    /// The changes of a diff in order, batches opened up.
    pub fn leaves<'a>(&'a self) -> (leaves: Vec<&'a MapDiff<K, V>>)
        ensures
            all_leaves(leaves@),
            atoms(leaves@) == self.steps(),
    {
        let mut leaves: Vec<&'a MapDiff<K, V>> = Vec::new();
        self.collect_leaves(&mut leaves);
        assert(atoms(leaves@) =~= self.steps());
        leaves
    }
}

/// No diff among these is a batch.
pub open spec fn all_leaves<K, V>(leaves: Seq<&MapDiff<K, V>>) -> bool {
    forall|i: int| 0 <= i < leaves.len() ==> !((#[trigger] leaves[i]) is Batch)
}

/// The changes that leaves stand for.
pub open spec fn atoms<K: CellValue, V: CellValue>(leaves: Seq<&MapDiff<K, V>>) -> Seq<
    Change<K::Model, V::Model>,
> {
    leaves.map_values(|d: &MapDiff<K, V>| d.atom())
}

/// None of these diffs is a batch.
pub open spec fn flat<K, V>(diffs: Seq<MapDiff<K, V>>) -> bool {
    forall|i: int| 0 <= i < diffs.len() ==> !((#[trigger] diffs[i]) is Batch)
}

/// Diffs that stay as they were, and single changes after them.
pub open spec fn appends<K: CellValue, V: CellValue>(
    before: Seq<MapDiff<K, V>>,
    after: Seq<MapDiff<K, V>>,
    told: Seq<Change<K::Model, V::Model>>,
) -> bool {
    &&& after.len() == before.len() + told.len()
    &&& after.take(before.len() as int) == before
    &&& forall|i: int|
        0 <= i < told.len() ==> !((#[trigger] after[before.len() + i]) is Batch) && after[before.len()
            + i].atom() == told[i]
}

/// The changes of several diffs, one diff after the other.
pub open spec fn steps_of<K: CellValue, V: CellValue>(diffs: Seq<MapDiff<K, V>>) -> Seq<
    Change<K::Model, V::Model>,
> {
    MapDiff::<K, V>::steps_of(diffs)
}

pub proof fn steps_of_push<
    K: CellValue,
    V: CellValue,
>(diffs: Seq<MapDiff<K, V>>, diff: MapDiff<K, V>)
    ensures
        steps_of(diffs.push(diff)) == steps_of(diffs) + diff.steps(),
        !(diff is Batch) ==> steps_of(diffs.push(diff)) == steps_of(diffs).push(diff.atom()),
{
    assert(diffs.push(diff).drop_last() =~= diffs);
    if !(diff is Batch) {
        assert(steps_of(diffs) + diff.steps() =~= steps_of(diffs).push(diff.atom()));
    }
}

pub proof fn trees_push<
    K: CellValue,
    V: CellValue,
>(diffs: Seq<MapDiff<K, V>>, diff: MapDiff<K, V>)
    ensures
        MapDiff::<K, V>::trees(diffs.push(diff)) == MapDiff::<K, V>::trees(diffs).push(diff.tree()),
{
    assert(diffs.push(diff).drop_last() =~= diffs);
}

pub proof fn steps_of_concat<
    K: CellValue,
    V: CellValue,
>(a: Seq<MapDiff<K, V>>, b: Seq<MapDiff<K, V>>)
    ensures
        steps_of(a + b) == steps_of(a) + steps_of(b),
    decreases b.len(),
{
    if b.len() == 0 {
        assert(a + b =~= a);
        assert(steps_of(a) + steps_of(b) =~= steps_of(a));
    } else {
        assert((a + b).drop_last() =~= a + b.drop_last());
        steps_of_concat(a, b.drop_last());
        assert(steps_of(a + b) =~= steps_of(a) + steps_of(b));
    }
}

/// Diffs without a batch among them have one change each.
pub proof fn steps_of_flat<K: CellValue, V: CellValue>(diffs: Seq<MapDiff<K, V>>)
    requires
        flat(diffs),
    ensures
        steps_of(diffs).len() == diffs.len(),
        forall|i: int| 0 <= i < diffs.len() ==> #[trigger] steps_of(diffs)[i] == diffs[i].atom(),
    decreases diffs.len(),
{
    if diffs.len() > 0 {
        let rest = diffs.drop_last();
        assert forall|i: int| 0 <= i < rest.len() implies !((#[trigger] rest[i]) is Batch) by {
            assert(!(diffs[i] is Batch));
        }
        steps_of_flat(rest);
        assert(!(diffs[diffs.len() - 1] is Batch));
        assert(rest.push(diffs.last()) =~= diffs);
        steps_of_push(rest, diffs.last());
    }
}

/// What is appended is told after what was there.
pub proof fn appends_steps<K: CellValue, V: CellValue>(
    before: Seq<MapDiff<K, V>>,
    after: Seq<MapDiff<K, V>>,
    told: Seq<Change<K::Model, V::Model>>,
)
    requires
        appends(before, after, told),
    ensures
        steps_of(after) == steps_of(before) + told,
        flat(before) ==> flat(after),
    decreases told.len(),
{
    let n = before.len() as int;
    if told.len() == 0 {
        assert(after =~= before);
        assert(steps_of(before) + told =~= steps_of(before));
    } else {
        let rest = after.drop_last();
        let less = told.drop_last();
        let m = less.len() as int;
        assert(rest.take(n) =~= before);
        assert forall|i: int| 0 <= i < less.len() implies !((#[trigger] rest[n + i]) is Batch)
            && rest[n + i].atom() == less[i] by {
            assert(after[n + i] == rest[n + i]);
        }
        appends_steps(before, rest, less);
        assert(after[n + m] == after.last());
        assert(rest.push(after.last()) =~= after);
        steps_of_push(rest, after.last());
        assert(steps_of(before) + told =~= (steps_of(before) + less).push(told.last()));
        if flat(before) {
            assert forall|i: int| 0 <= i < after.len() implies !((#[trigger] after[i]) is Batch) by {
                if i < rest.len() {
                    assert(!(rest[i] is Batch));
                } else {
                    assert(after[i] == after[n + m]);
                }
            }
        }
    }
}

/// One change more is appended.
pub proof fn appends_push<K: CellValue, V: CellValue>(
    before: Seq<MapDiff<K, V>>,
    after: Seq<MapDiff<K, V>>,
    told: Seq<Change<K::Model, V::Model>>,
    diff: MapDiff<K, V>,
)
    requires
        appends(before, after, told),
        !(diff is Batch),
    ensures
        appends(before, after.push(diff), told.push(diff.atom())),
{
    let n = before.len() as int;
    let more = after.push(diff);
    assert(more.take(n) =~= after.take(n));
    assert forall|i: int| 0 <= i < told.len() + 1 implies !((#[trigger] more[n + i]) is Batch)
        && more[n + i].atom() == told.push(diff.atom())[i] by {
        if i < told.len() {
            assert(more[n + i] == after[n + i]);
        }
    }
}

/// The map that entries make, a later entry for a key replacing an earlier one.
pub open spec fn entries_map<K, V>(entries: Seq<(K, V)>) -> Map<K, V>
    decreases entries.len(),
{
    if entries.len() == 0 {
        Map::empty()
    } else {
        entries_map(entries.drop_last()).insert(entries.last().0, entries.last().1)
    }
}

/// What a change makes of a map.
pub open spec fn apply_change<K, V>(m: Map<K, V>, change: Change<K, V>) -> Map<K, V> {
    match change {
        Change::Initial { entries } => entries_map(entries),
        Change::Insert { key, value } => m.insert(key, value),
        Change::Remove { key, old_value } => m.remove(key),
        Change::Update { key, old_value, new_value } => m.insert(key, new_value),
    }
}

/// What changes in order make of a map.
pub open spec fn replay<K, V>(m: Map<K, V>, steps: Seq<Change<K, V>>) -> Map<K, V>
    decreases steps.len(),
{
    if steps.len() == 0 {
        m
    } else {
        apply_change(replay(m, steps.drop_last()), steps.last())
    }
}

/// A change tells the truth about the map it changes: what it inserts was not there, what it
/// removes or replaces was, and a new beginning names each key once.
pub open spec fn fits<K, V>(m: Map<K, V>, change: Change<K, V>) -> bool {
    match change {
        Change::Initial { entries } => entries.map_values(|e: (K, V)| e.0).no_duplicates(),
        Change::Insert { key, value } => !m.contains_key(key),
        Change::Remove { key, old_value } => lookup(m, key) == Some(old_value),
        Change::Update { key, old_value, new_value } => lookup(m, key) == Some(old_value),
    }
}

/// Each change in order tells the truth about the map that the changes before it made.
pub open spec fn fits_all<K, V>(m: Map<K, V>, steps: Seq<Change<K, V>>) -> bool
    decreases steps.len(),
{
    steps.len() == 0 || (fits_all(m, steps.drop_last()) && fits(
        replay(m, steps.drop_last()),
        steps.last(),
    ))
}

pub proof fn replay_push<K, V>(m: Map<K, V>, steps: Seq<Change<K, V>>, change: Change<K, V>)
    ensures
        replay(m, steps.push(change)) == apply_change(replay(m, steps), change),
        fits_all(m, steps.push(change)) == (fits_all(m, steps) && fits(replay(m, steps), change)),
{
    assert(steps.push(change).drop_last() =~= steps);
}

/// Replaying changes one part after the other is replaying them as a whole.
pub proof fn replay_concat<K, V>(m: Map<K, V>, a: Seq<Change<K, V>>, b: Seq<Change<K, V>>)
    ensures
        replay(m, a + b) == replay(replay(m, a), b),
        fits_all(m, a + b) == (fits_all(m, a) && fits_all(replay(m, a), b)),
    decreases b.len(),
{
    if b.len() == 0 {
        assert(a + b =~= a);
    } else {
        assert((a + b).drop_last() =~= a + b.drop_last());
        replay_concat(m, a, b.drop_last());
    }
}

/// The number of rows that changes touch.
pub open spec fn work_of<K, V>(steps: Seq<Change<K, V>>) -> nat
    decreases steps.len(),
{
    if steps.len() == 0 {
        0
    } else {
        work_of(steps.drop_last()) + (match steps.last() {
            Change::Initial { entries } => entries.len(),
            _ => 1,
        })
    }
}

/// The key of a change of one row.
pub open spec fn change_key<K, V>(change: Change<K, V>) -> Option<K> {
    match change {
        Change::Initial { entries } => None,
        Change::Insert { key, value } => Some(key),
        Change::Remove { key, old_value } => Some(key),
        Change::Update { key, old_value, new_value } => Some(key),
    }
}

/// A number that is too large for the machine is cut down to the largest that is not.
pub open spec fn saturated(n: nat) -> usize {
    if n <= usize::MAX {
        n as usize
    } else {
        usize::MAX
    }
}

impl<K: CellValue, V: CellValue> MapDiff<K, V> {
    /// A copy of a diff.
    pub fn clone_diff(&self) -> (copy: MapDiff<K, V>)
        ensures
            copy.tree() == self.tree(),
            copy.steps() == self.steps(),
            copy is Batch == self is Batch,
            !(self is Batch) ==> copy.atom() == self.atom(),
        decreases self,
    {
        match self {
            MapDiff::Initial { entries } => MapDiff::Initial { entries: clone_values(entries) },
            MapDiff::Insert { key, value } => MapDiff::Insert {
                key: key.clone_value(),
                value: value.clone_value(),
            },
            MapDiff::Remove { key, old_value } => MapDiff::Remove {
                key: key.clone_value(),
                old_value: old_value.clone_value(),
            },
            MapDiff::Update { key, old_value, new_value } => MapDiff::Update {
                key: key.clone_value(),
                old_value: old_value.clone_value(),
                new_value: new_value.clone_value(),
            },
            MapDiff::Batch { changes } => {
                let mut copies: Vec<MapDiff<K, V>> = Vec::new();
                let mut i: usize = 0;
                assert(changes@.take(0) =~= Seq::empty());
                while i < changes.len()
                    invariant
                        i <= changes@.len(),
                        *self matches MapDiff::Batch { changes: c } && c == *changes,
                        steps_of(copies@) == steps_of(changes@.take(i as int)),
                        Self::trees(copies@) == Self::trees(changes@.take(i as int)),
                    decreases changes@.len() - i,
                {
                    let copy = changes[i].clone_diff();
                    proof {
                        steps_of_push(copies@, copy);
                        trees_push(copies@, copy);
                        trees_push(changes@.take(i as int), changes@[i as int]);
                        steps_of_push(changes@.take(i as int), changes@[i as int]);
                        assert(changes@.take(i as int).push(changes@[i as int]) =~= changes@.take(i + 1));
                    }
                    copies.push(copy);
                    i += 1;
                }
                assert(changes@.take(i as int) =~= changes@);
                MapDiff::Batch { changes: copies }
            },
        }
    }

    /// The key of a change of one row.
    pub fn atomic_key(&self) -> (key: Option<&K>)
        ensures
            self is Batch ==> key is None,
            !(self is Batch) ==> key is Some == change_key(self.atom()) is Some,
            key is Some ==> Some(key->Some_0.model()) == change_key(self.atom()),
            match *self {
                MapDiff::Insert { key: k, .. } => key is Some && key->Some_0.model() == k.model(),
                MapDiff::Remove { key: k, .. } => key is Some && key->Some_0.model() == k.model(),
                MapDiff::Update { key: k, .. } => key is Some && key->Some_0.model() == k.model(),
                _ => key is None,
            },
    {
        match self {
            MapDiff::Insert { key, .. } => Some(key),
            MapDiff::Remove { key, .. } => Some(key),
            MapDiff::Update { key, .. } => Some(key),
            _ => None,
        }
    }

    /// The number of rows that a diff touches.
    pub fn work_items(&self) -> (work: usize)
        ensures
            work == saturated(work_of(self.steps())),
    {
        let leaves = self.leaves();
        let mut work: usize = 0;
        let mut i: usize = 0;
        assert(self.steps().take(0) =~= Seq::empty());
        while i < leaves.len()
            invariant
                i <= leaves@.len(),
                all_leaves(leaves@),
                atoms(leaves@) == self.steps(),
                work == saturated(work_of(self.steps().take(i as int))),
            decreases leaves@.len() - i,
        {
            let items: usize = match leaves[i] {
                MapDiff::Initial { entries } => entries.len(),
                _ => 1,
            };
            proof {
                assert(self.steps()[i as int] == leaves@[i as int].atom());
                assert(self.steps().take(i + 1).drop_last() =~= self.steps().take(i as int));
            }
            work = work.saturating_add(items);
            i += 1;
        }
        assert(self.steps().take(i as int) =~= self.steps());
        work
    }

    /// Appends copies of the changes of a diff in order, batches opened up.
    pub fn flatten_into(&self, out: &mut Vec<MapDiff<K, V>>)
        ensures
            appends(old(out)@, final(out)@, self.steps()),
    {
        let leaves = self.leaves();
        let mut i: usize = 0;
        assert(appends(old(out)@, out@, self.steps().take(0))) by {
            assert(out@.take(out@.len() as int) =~= out@);
        }
        while i < leaves.len()
            invariant
                i <= leaves@.len(),
                all_leaves(leaves@),
                atoms(leaves@) == self.steps(),
                appends(old(out)@, out@, self.steps().take(i as int)),
            decreases leaves@.len() - i,
        {
            let copy = leaves[i].clone_diff();
            proof {
                appends_push(old(out)@, out@, self.steps().take(i as int), copy);
                assert(self.steps()[i as int] == leaves@[i as int].atom());
                assert(self.steps().take(i as int).push(copy.atom()) =~= self.steps().take(i + 1));
            }
            out.push(copy);
            i += 1;
        }
        assert(self.steps().take(i as int) =~= self.steps());
    }
}

} // verus!
