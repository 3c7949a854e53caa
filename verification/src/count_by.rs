//! Counting the rows of each group.
use std::marker::PhantomData;
use vstd::prelude::*;

use crate::diff::{apply_change, entries_map, fits, fits_all, replay, Change};
use crate::diff_runtime::{
    group_fns, grouping_follows_source, install_grouped_runtime_via_query, works_all, no_groups,
    DiffDriver, DiffRuntime, GroupFns, Grouped, GroupedOps, GroupedRuntime,
};
use crate::func::{call2, closure_known, closure_laws, image2, pure2, row_closure, RowFn};
use crate::fx::{lists, lookup};
use crate::index::entry_keys;
use crate::query::{Many, MapQuery, PlanProperties, Repartition};
use crate::value::{CellValue, MapKey};

verus! {

/// Counting as a grouping: the state of a group is the number of its rows.
pub struct CountOps<F> {
    pub group_key: F,
}

/// A number and the one after it, as far as the machine has one.
pub open spec fn count_up(n: usize) -> usize {
    if n == usize::MAX {
        n
    } else {
        (n + 1) as usize
    }
}

/// A number and the one before it, as far as there is one.
pub open spec fn count_down(n: usize) -> usize {
    if n == 0 {
        n
    } else {
        (n - 1) as usize
    }
}

impl<
    SK: MapKey,
    SV: CellValue,
    GK: MapKey,
    F: RowFn<SK, SV, GK>,
> GroupedOps<SK, SV, GK, usize> for CountOps<F> {
    type State = usize;

    open spec fn lawful(&self) -> bool {
        pure2::<SK, SV, GK, F>(self.group_key)
    }

    open spec fn group_of(&self, key: SK::Model, value: SV::Model) -> GK::Model {
        image2::<SK, SV, GK, F>(self.group_key, key, value)
    }

    open spec fn fresh(&self) -> usize {
        0
    }

    open spec fn inserted(&self, state: usize, key: SK::Model, value: SV::Model) -> usize {
        count_up(state)
    }

    open spec fn updated(
        &self,
        state: usize,
        key: SK::Model,
        old_value: SV::Model,
        new_value: SV::Model,
    ) -> usize {
        state
    }

    open spec fn removed(&self, state: usize, key: SK::Model, old_value: SV::Model) -> usize {
        count_down(state)
    }

    open spec fn materialized(&self, state: usize) -> usize {
        state
    }

    open spec fn vacant(&self, state: usize) -> bool {
        state == 0
    }

    fn make_group_key(&self, key: &SK, value: &SV) -> (group: GK)
        ensures
            group.model() == self.group_key.image(key.model(), value.model()),
    {
        call2(&self.group_key, key, value)
    }

    fn new_group_state(&self) -> (state: usize)
        ensures
            state == 0,
    {
        0
    }

    fn on_insert(&self, state: usize, key: &SK, value: &SV) -> (next: usize)
        ensures
            state < usize::MAX ==> next == state + 1,
            state == usize::MAX ==> next == state,
    {
        state.saturating_add(1)
    }

    fn on_update(&self, state: usize, key: &SK, old_value: &SV, new_value: &SV) -> (next: usize)
        ensures
            next == state,
    {
        state
    }

    fn on_remove(&self, state: usize, key: &SK, old_value: &SV) -> (next: usize)
        ensures
            state > 0 ==> next == state - 1,
            state == 0 ==> next == 0,
    {
        state.saturating_sub(1)
    }

    fn materialize(&self, state: &usize) -> (value: usize)
        ensures
            value == *state,
    {
        *state
    }

    fn is_empty(&self, state: &usize) -> (empty: bool)
        ensures
            empty == (*state == 0),
    {
        *state == 0
    }
}

/// The functions of counting.
pub open spec fn count_fns<SK, SV, GK>(group_of: spec_fn(SK, SV) -> GK) -> GroupFns<
    SK,
    SV,
    GK,
    usize,
    usize,
> {
    GroupFns {
        group_of,
        fresh: 0,
        inserted: |s: usize, k: SK, v: SV| count_up(s),
        updated: |s: usize, k: SK, u: SV, v: SV| s,
        removed: |s: usize, k: SK, u: SV| count_down(s),
        materialized: |s: usize| s,
        vacant: |s: usize| s == 0,
    }
}

/// The keys of the rows of a map that are in a group.
pub open spec fn group_keys<SK, SV, GK>(m: Map<SK, SV>, group_of: spec_fn(SK, SV) -> GK, g: GK) -> Set<
    SK,
> {
    Set::new(|k: SK| m.contains_key(k) && group_of(k, m[k]) == g)
}

/// Each group of a map holds the number of its rows, and no other group is there.
pub open spec fn counts<SK, SV, GK>(
    grouped: Grouped<SK, GK, usize>,
    m: Map<SK, SV>,
    group_of: spec_fn(SK, SV) -> GK,
) -> bool {
    &&& forall|k: SK| #[trigger] grouped.member.contains_key(k) == m.contains_key(k)
    &&& forall|k: SK| #[trigger]
        grouped.member.contains_key(k) ==> grouped.member[k] == group_of(k, m[k])
    &&& forall|g: GK|
        #![trigger grouped.groups.contains_key(g)]
        grouped.groups.contains_key(g) == (group_keys(m, group_of, g).len() > 0)
    &&& forall|g: GK| #[trigger]
        grouped.groups.contains_key(g) ==> grouped.groups[g] == group_keys(m, group_of, g).len()
}

proof fn group_keys_finite<SK, SV, GK>(m: Map<SK, SV>, group_of: spec_fn(SK, SV) -> GK, g: GK)
    requires
        m.dom().finite(),
    ensures
        group_keys(m, group_of, g).finite(),
        group_keys(m, group_of, g).len() <= m.dom().len(),
{
    assert(group_keys(m, group_of, g).subset_of(m.dom()));
    vstd::set_lib::lemma_len_subset(group_keys(m, group_of, g), m.dom());
}

/// Every group after a row has come.
proof fn group_keys_insert<SK, SV, GK>(
    m: Map<SK, SV>,
    group_of: spec_fn(SK, SV) -> GK,
    k: SK,
    v: SV,
)
    requires
        m.dom().finite(),
        !m.contains_key(k),
    ensures
        forall|g: GK| #[trigger]
            group_keys(m.insert(k, v), group_of, g).len() == group_keys(m, group_of, g).len() + (
            if g == group_of(k, v) {
                1int
            } else {
                0
            }),
{
    assert forall|g: GK| #[trigger] group_keys(m.insert(k, v), group_of, g).len() == group_keys(
        m,
        group_of,
        g,
    ).len() + (if g == group_of(k, v) {
        1int
    } else {
        0
    }) by {
        group_keys_finite(m, group_of, g);
        if g == group_of(k, v) {
            assert(group_keys(m.insert(k, v), group_of, g) =~= group_keys(m, group_of, g).insert(k));
        } else {
            assert(group_keys(m.insert(k, v), group_of, g) =~= group_keys(m, group_of, g));
        }
    }
}

/// Every group after a row has gone.
proof fn group_keys_remove<SK, SV, GK>(m: Map<SK, SV>, group_of: spec_fn(SK, SV) -> GK, k: SK)
    requires
        m.dom().finite(),
        m.contains_key(k),
    ensures
        forall|g: GK| #[trigger]
            group_keys(m.remove(k), group_of, g).len() == group_keys(m, group_of, g).len() - (if g
                == group_of(k, m[k]) {
                1int
            } else {
                0
            }),
{
    assert forall|g: GK| #[trigger] group_keys(m.remove(k), group_of, g).len() == group_keys(
        m,
        group_of,
        g,
    ).len() - (if g == group_of(k, m[k]) {
        1int
    } else {
        0
    }) by {
        group_keys_finite(m, group_of, g);
        if g == group_of(k, m[k]) {
            assert(group_keys(m, group_of, g).contains(k));
            assert(group_keys(m.remove(k), group_of, g) =~= group_keys(m, group_of, g).remove(k));
        } else {
            assert(group_keys(m.remove(k), group_of, g) =~= group_keys(m, group_of, g));
        }
    }
}

proof fn counts_insert<SK, SV, GK>(
    grouped: Grouped<SK, GK, usize>,
    m: Map<SK, SV>,
    group_of: spec_fn(SK, SV) -> GK,
    k: SK,
    v: SV,
)
    requires
        counts(grouped, m, group_of),
        m.dom().finite(),
        !m.contains_key(k),
        m.insert(k, v).dom().len() <= usize::MAX,
    ensures
        counts(
            grouped.joined_by(count_fns(group_of), group_of(k, v), k, v),
            m.insert(k, v),
            group_of,
        ),
{
    let fns = count_fns(group_of);
    let g = group_of(k, v);
    let after = grouped.joined_by(fns, g, k, v);
    let m2 = m.insert(k, v);
    group_keys_insert(m, group_of, k, v);
    group_keys_finite(m2, group_of, g);
    assert(group_keys(m2, group_of, g).len() == group_keys(m, group_of, g).len() + 1);
    assert forall|x: GK|
        #![trigger after.groups.contains_key(x)]
        after.groups.contains_key(x) == (group_keys(m2, group_of, x).len() > 0) by {
        let _ = grouped.groups.contains_key(x);
    }
    assert forall|x: GK| #[trigger] after.groups.contains_key(x) implies after.groups[x] == group_keys(
        m2,
        group_of,
        x,
    ).len() by {
        let _ = grouped.groups.contains_key(x);
        let _ = grouped.groups.contains_key(g);
    }
    assert forall|x: SK| #[trigger] after.member.contains_key(x) implies after.member[x] == group_of(
        x,
        m2[x],
    ) by {
        if x != k {
            assert(grouped.member.contains_key(x));
        }
    }
}

proof fn counts_remove<SK, SV, GK>(
    grouped: Grouped<SK, GK, usize>,
    m: Map<SK, SV>,
    group_of: spec_fn(SK, SV) -> GK,
    k: SK,
)
    requires
        counts(grouped, m, group_of),
        m.dom().finite(),
        m.contains_key(k),
    ensures
        counts(
            grouped.left_by(count_fns(group_of), group_of(k, m[k]), k, m[k]),
            m.remove(k),
            group_of,
        ),
{
    let fns = count_fns(group_of);
    let g = group_of(k, m[k]);
    let after = grouped.left_by(fns, g, k, m[k]);
    let m2 = m.remove(k);
    group_keys_remove(m, group_of, k);
    group_keys_finite(m, group_of, g);
    assert(group_keys(m, group_of, g).contains(k));
    assert(group_keys(m2, group_of, g).len() == group_keys(m, group_of, g).len() - 1);
    assert(grouped.groups.contains_key(g));
    assert forall|x: GK|
        #![trigger after.groups.contains_key(x)]
        after.groups.contains_key(x) == (group_keys(m2, group_of, x).len() > 0) by {
        let _ = grouped.groups.contains_key(x);
        assert(group_keys(m2, group_of, x).len() == group_keys(m, group_of, x).len() - (if x == g {
            1int
        } else {
            0
        }));
    }
    assert forall|x: GK| #[trigger] after.groups.contains_key(x) implies after.groups[x] == group_keys(
        m2,
        group_of,
        x,
    ).len() by {
        let _ = grouped.groups.contains_key(x);
        assert(group_keys(m2, group_of, x).len() == group_keys(m, group_of, x).len() - (if x == g {
            1int
        } else {
            0
        }));
    }
    assert forall|x: SK| #[trigger] after.member.contains_key(x) implies after.member[x] == group_of(
        x,
        m2[x],
    ) by {
        assert(grouped.member.contains_key(x));
    }
}

proof fn counts_load<SK, SV, GK>(group_of: spec_fn(SK, SV) -> GK, entries: Seq<(SK, SV)>)
    requires
        entry_keys(entries).no_duplicates(),
        entries.len() <= usize::MAX,
    ensures
        counts(
            no_groups::<SK, GK, usize>().load(count_fns(group_of), entries),
            entries_map(entries),
            group_of,
        ),
        entries_map(entries).dom().finite(),
        entries_map(entries).dom().len() <= entries.len(),
    decreases entries.len(),
{
    if entries.len() > 0 {
        let rest = entries.drop_last();
        let (k, v) = entries.last();
        assert(entry_keys(rest) =~= entry_keys(entries).drop_last());
        counts_load(group_of, rest);
        crate::join_runtime::rows::entries_map_keys(rest);
        assert(!entry_keys(rest).contains(k)) by {
            if entry_keys(rest).contains(k) {
                let i = choose|i: int| 0 <= i < rest.len() && entry_keys(rest)[i] == k;
                assert(entry_keys(entries)[i] == entry_keys(entries)[entries.len() - 1]);
            }
        }
        counts_insert(
            no_groups::<SK, GK, usize>().load(count_fns(group_of), rest),
            entries_map(rest),
            group_of,
            k,
            v,
        );
    } else {
        let m = entries_map(entries);
        let none = no_groups::<SK, GK, usize>().load(count_fns(group_of), entries);
        assert forall|g: GK|
            #![trigger none.groups.contains_key(g)]
            none.groups.contains_key(g) == (group_keys(m, group_of, g).len() > 0) by {
            assert(group_keys(m, group_of, g) =~= Set::<SK>::empty());
        }
    }
}

proof fn counts_step<SK, SV, GK>(
    grouped: Grouped<SK, GK, usize>,
    m: Map<SK, SV>,
    group_of: spec_fn(SK, SV) -> GK,
    change: Change<SK, SV>,
)
    requires
        counts(grouped, m, group_of),
        m.dom().finite(),
        fits(m, change),
        apply_change(m, change).dom().len() <= usize::MAX,
        change matches Change::Initial { entries } ==> entries.len() <= usize::MAX,
    ensures
        counts(grouped.step(count_fns(group_of), change), apply_change(m, change), group_of),
        apply_change(m, change).dom().finite(),
{
    let fns = count_fns(group_of);
    match change {
        Change::Initial { entries } => {
            assert(entries.map_values(|e: (SK, SV)| e.0) =~= entry_keys(entries));
            counts_load(group_of, entries);
        },
        Change::Insert { key, value } => counts_insert(grouped, m, group_of, key, value),
        Change::Remove { key, old_value } => {
            assert(grouped.member.contains_key(key));
            counts_remove(grouped, m, group_of, key);
        },
        Change::Update { key, old_value, new_value } => {
            assert(grouped.member.contains_key(key));
            let a = grouped.old_group(fns, key, old_value);
            let b = group_of(key, new_value);
            let m2 = m.insert(key, new_value);
            assert(m2 =~= m.remove(key).insert(key, new_value));
            counts_remove(grouped, m, group_of, key);
            if a != b {
                counts_insert(
                    grouped.left_by(fns, a, key, old_value),
                    m.remove(key),
                    group_of,
                    key,
                    new_value,
                );
            } else {
                let after = grouped.step(fns, change);
                assert forall|g: GK| #[trigger] group_keys(m2, group_of, g) == group_keys(m, group_of, g) by {
                    assert(group_keys(m2, group_of, g) =~= group_keys(m, group_of, g));
                }
                assert(group_keys(m, group_of, b).contains(key));
                group_keys_finite(m, group_of, b);
                assert(grouped.groups.contains_key(b));
                assert(after.groups =~= grouped.groups);
                assert(after.member =~= grouped.member);
                assert forall|x: SK| #[trigger] after.member.contains_key(x) implies after.member[x]
                    == group_of(x, m2[x]) by {
                    assert(grouped.member.contains_key(x));
                }
                assert forall|g: GK|
                    #![trigger after.groups.contains_key(g)]
                    after.groups.contains_key(g) == (group_keys(m2, group_of, g).len() > 0) by {
                    let _ = grouped.groups.contains_key(g);
                }
                assert forall|g: GK| #[trigger] after.groups.contains_key(g) implies after.groups[g]
                    == group_keys(m2, group_of, g).len() by {
                    let _ = grouped.groups.contains_key(g);
                }
            }
        },
    }
}

/// Every map on the way has a number of rows that the machine can count, and so has every new
/// beginning.
pub open spec fn countable<SK, SV>(m: Map<SK, SV>, steps: Seq<Change<SK, SV>>) -> bool
    decreases steps.len(),
{
    if steps.len() == 0 {
        m.dom().len() <= usize::MAX
    } else {
        &&& countable(m, steps.drop_last())
        &&& replay(m, steps).dom().len() <= usize::MAX
        &&& steps.last() matches Change::Initial { entries } ==> entries.len() <= usize::MAX
    }
}

/// Counting follows its source: where changes tell the truth about a map, each group holds the
/// number of rows that the map has in it, and a group without rows is not there.
pub proof fn counts_follow_source<SK, SV, GK>(
    grouped: Grouped<SK, GK, usize>,
    m: Map<SK, SV>,
    group_of: spec_fn(SK, SV) -> GK,
    steps: Seq<Change<SK, SV>>,
)
    requires
        counts(grouped, m, group_of),
        m.dom().finite(),
        fits_all(m, steps),
        countable(m, steps),
    ensures
        counts(grouped.run(count_fns(group_of), steps), replay(m, steps), group_of),
        replay(m, steps).dom().finite(),
    decreases steps.len(),
{
    if steps.len() > 0 {
        counts_follow_source(grouped, m, group_of, steps.drop_last());
        counts_step(
            grouped.run(count_fns(group_of), steps.drop_last()),
            replay(m, steps.drop_last()),
            group_of,
            steps.last(),
        );
    }
}

/// The group of a row.
pub open spec fn group_of<SK: CellValue, SV: CellValue, GK: CellValue, F: RowFn<SK, SV, GK>>(
    group_key: F,
) -> spec_fn(SK::Model, SV::Model) -> GK::Model {
    |k: SK::Model, v: SV::Model| image2::<SK, SV, GK, F>(group_key, k, v)
}

proof fn count_ops_fns<
    SK: MapKey,
    SV: CellValue,
    GK: MapKey,
    F: RowFn<SK, SV, GK>,
>(ops: CountOps<F>)
    ensures
        group_fns::<SK, SV, GK, usize, CountOps<F>>(ops) == count_fns(
            group_of::<SK, SV, GK, F>(ops.group_key),
        ),
{
    let a = group_fns::<SK, SV, GK, usize, CountOps<F>>(ops);
    let b = count_fns(group_of::<SK, SV, GK, F>(ops.group_key));
    assert(a.group_of =~= b.group_of);
    assert(a.inserted =~= b.inserted);
    assert(a.updated =~= b.updated);
    assert(a.removed =~= b.removed);
    assert(a.materialized =~= b.materialized);
    assert(a.vacant =~= b.vacant);
}

/// A counting runtime follows its source: where the changes that it follows tell the truth about a
/// map, its output is the number of rows that the map has in each group, and what it tells leads
/// there.
pub proof fn count_by_follows_source<SK: MapKey, SV: CellValue, GK: MapKey, F: RowFn<SK, SV, GK>>(
    before: GroupedRuntime<SK, SV, GK, usize, CountOps<F>>,
    m: Map<SK::Model, SV::Model>,
    steps: Seq<Change<SK::Model, SV::Model>>,
    after: GroupedRuntime<SK, SV, GK, usize, CountOps<F>>,
    told: Seq<Change<GK::Model, usize>>,
)
    requires
        works_all::<SK, SV, GK, usize, GroupedRuntime<SK, SV, GK, usize, CountOps<F>>>(
            before,
            steps,
            after,
            told,
        ),
        counts(before.grouped(), m, group_of::<SK, SV, GK, F>(before.ops().group_key)),
        m.dom().finite(),
        fits_all(m, steps),
        countable(m, steps),
    ensures
        counts(
            after.grouped(),
            replay(m, steps),
            group_of::<SK, SV, GK, F>(after.ops().group_key),
        ),
        forall|g: GK::Model|
            #![trigger lookup(after.output(), g)]
            lookup(after.output(), g) == (if group_keys(
                replay(m, steps),
                group_of::<SK, SV, GK, F>(after.ops().group_key),
                g,
            ).len() > 0 {
                Some(
                    group_keys(
                        replay(m, steps),
                        group_of::<SK, SV, GK, F>(after.ops().group_key),
                        g,
                    ).len() as usize,
                )
            } else {
                None
            }),
        fits_all(before.output(), told),
        replay(before.output(), told) == after.output(),
{
    let f = group_of::<SK, SV, GK, F>(before.ops().group_key);
    grouping_follows_source::<SK, SV, GK, usize, CountOps<F>>(before, steps, after, told);
    count_ops_fns::<SK, SV, GK, F>(before.ops());
    counts_follow_source(before.grouped(), m, f, steps);
    assert forall|g: GK::Model|
        #![trigger lookup(after.output(), g)]
        lookup(after.output(), g) == (if group_keys(replay(m, steps), f, g).len() > 0 {
            Some(group_keys(replay(m, steps), f, g).len() as usize)
        } else {
            None
        }) by {
        let _ = after.grouped().groups.contains_key(g);
    }
}

/// What the groups of a list count, added up.
pub open spec fn added_up<GK>(counted: Map<GK, usize>, groups: Seq<GK>) -> nat
    decreases groups.len(),
{
    if groups.len() == 0 {
        0
    } else {
        added_up(counted, groups.drop_last()) + counted[groups.last()] as nat
    }
}

/// The keys of the rows of a map that are in one of several groups.
pub open spec fn grouped_keys<SK, SV, GK>(
    m: Map<SK, SV>,
    group_of: spec_fn(SK, SV) -> GK,
    groups: Seq<GK>,
) -> Set<SK> {
    Set::new(|k: SK| m.contains_key(k) && groups.contains(group_of(k, m[k])))
}

proof fn added_up_rows<SK, SV, GK>(
    grouped: Grouped<SK, GK, usize>,
    m: Map<SK, SV>,
    group_of: spec_fn(SK, SV) -> GK,
    groups: Seq<GK>,
)
    requires
        counts(grouped, m, group_of),
        m.dom().finite(),
        groups.no_duplicates(),
        forall|g: GK| #[trigger] groups.contains(g) ==> grouped.groups.contains_key(g),
    ensures
        grouped_keys(m, group_of, groups).finite(),
        added_up(grouped.groups, groups) == grouped_keys(m, group_of, groups).len(),
    decreases groups.len(),
{
    let all = grouped_keys(m, group_of, groups);
    if groups.len() == 0 {
        assert(all =~= Set::<SK>::empty());
    } else {
        let rest = groups.drop_last();
        let g = groups.last();
        let others = grouped_keys(m, group_of, rest);
        let own = group_keys(m, group_of, g);
        assert forall|x: GK| #[trigger] rest.contains(x) implies grouped.groups.contains_key(x) by {
            let i = choose|i: int| 0 <= i < rest.len() && rest[i] == x;
            assert(groups[i] == x);
            assert(groups.contains(x));
        }
        added_up_rows(grouped, m, group_of, rest);
        group_keys_finite(m, group_of, g);
        assert(groups[groups.len() - 1] == g);
        assert(groups.contains(g));
        assert(grouped.groups.contains_key(g));
        assert(!rest.contains(g)) by {
            if rest.contains(g) {
                let i = choose|i: int| 0 <= i < rest.len() && rest[i] == g;
                assert(groups[i] == groups[groups.len() - 1]);
            }
        }
        assert forall|k: SK| all.contains(k) <==> others.contains(k) || own.contains(k) by {
            if m.contains_key(k) {
                let x = group_of(k, m[k]);
                if rest.contains(x) {
                    let i = choose|i: int| 0 <= i < rest.len() && rest[i] == x;
                    assert(groups[i] == x);
                }
                if groups.contains(x) && x != g {
                    let i = choose|i: int| 0 <= i < groups.len() && groups[i] == x;
                    assert(rest[i] == x);
                }
            }
        }
        assert(all =~= others.union(own));
        assert(others.disjoint(own));
        vstd::set_lib::lemma_set_disjoint_lens(others, own);
    }
}

/// The counts of all groups add up to the number of rows of the source.
pub proof fn counts_add_up<SK, SV, GK>(
    grouped: Grouped<SK, GK, usize>,
    m: Map<SK, SV>,
    group_of: spec_fn(SK, SV) -> GK,
    groups: Seq<GK>,
)
    requires
        counts(grouped, m, group_of),
        m.dom().finite(),
        lists(groups, grouped.groups.dom()),
    ensures
        added_up(grouped.groups, groups) == m.dom().len(),
{
    added_up_rows(grouped, m, group_of, groups);
    let all = grouped_keys(m, group_of, groups);
    assert forall|k: SK| m.dom().contains(k) implies all.contains(k) by {
        let g = group_of(k, m[k]);
        group_keys_finite(m, group_of, g);
        assert(group_keys(m, group_of, g).contains(k));
        assert(grouped.groups.contains_key(g));
        assert(groups.contains(g));
    }
    assert(all =~= m.dom());
}

/// What a counting runtime gives adds up, over all its groups, to the number of rows of its source.
pub proof fn count_by_adds_up<SK: MapKey, SV: CellValue, GK: MapKey, F: RowFn<SK, SV, GK>>(
    before: GroupedRuntime<SK, SV, GK, usize, CountOps<F>>,
    m: Map<SK::Model, SV::Model>,
    steps: Seq<Change<SK::Model, SV::Model>>,
    after: GroupedRuntime<SK, SV, GK, usize, CountOps<F>>,
    told: Seq<Change<GK::Model, usize>>,
    groups: Seq<GK::Model>,
)
    requires
        works_all::<SK, SV, GK, usize, GroupedRuntime<SK, SV, GK, usize, CountOps<F>>>(
            before,
            steps,
            after,
            told,
        ),
        counts(before.grouped(), m, group_of::<SK, SV, GK, F>(before.ops().group_key)),
        m.dom().finite(),
        fits_all(m, steps),
        countable(m, steps),
        lists(groups, after.output().dom()),
    ensures
        added_up(after.output(), groups) == replay(m, steps).dom().len(),
{
    let f = group_of::<SK, SV, GK, F>(before.ops().group_key);
    count_by_follows_source(before, m, steps, after, told);
    grouping_follows_source::<SK, SV, GK, usize, CountOps<F>>(before, steps, after, told);
    count_ops_fns::<SK, SV, GK, F>(before.ops());
    counts_follow_source(before.grouped(), m, f, steps);
    assert(after.output() =~= after.grouped().groups);
    counts_add_up(after.grouped(), replay(m, steps), f, groups);
}

/// The number of rows of each group that a function puts rows into.
pub struct CountByPlan<S, K, V, GK, F> {
    pub source: S,
    pub group_key: F,
    pub types: PhantomData<(K, V, GK)>,
}

impl<
    S: MapQuery<Key = K, Value = V>,
    K: MapKey,
    V: CellValue,
    GK: MapKey,
    F: RowFn<K, V, GK>,
> PlanProperties for CountByPlan<S, K, V, GK, F> {
    type Cardinality = Many;

    type InputPartition = S::OutputPartition;

    type OutputPartition = Repartition<GK>;
}

impl<
    S: MapQuery<Key = K, Value = V>,
    K: MapKey,
    V: CellValue,
    GK: MapKey,
    F: RowFn<K, V, GK>,
> MapQuery for CountByPlan<S, K, V, GK, F> {
    type Key = GK;

    type Value = usize;

    open spec fn raw_source(&self) -> bool {
        false
    }

    fn is_raw_source(&self) -> (raw: bool)
        ensures
            !raw,
    {
        false
    }
}

impl<S, K: MapKey, V: CellValue, GK: MapKey, F: RowFn<K, V, GK>> CountByPlan<S, K, V, GK, F> {
    /// The source, and the grouping to put behind it.
    pub fn build_into(self) -> (built: (
        S,
        DiffDriver<GroupedRuntime<K, V, GK, usize, CountOps<F>>>,
    ))
        requires
            pure2::<K, V, GK, F>(self.group_key),
        ensures
            built.0 == self.source,
            built.1.state.wf(),
            built.1.state.ops() == (CountOps { group_key: self.group_key }),
            built.1.state.grouped() == no_groups::<K::Model, GK::Model, usize>(),
    {
        (self.source, install_grouped_runtime_via_query(CountOps { group_key: self.group_key }))
    }
}

/// Counting rows by groups.
pub trait CountByExt<K: MapKey, V: CellValue>: MapQuery<Key = K, Value = V> {
    /// The number of rows of each group that a function puts rows into.
    fn count_by<GK: MapKey, F: Fn(&K, &V) -> GK + Send + Sync + 'static>(self, group_key: F) -> (plan: CountByPlan<
        Self,
        K,
        V,
        GK,
        F,
    >)
        ensures
            plan.source == self,
            plan.group_key == group_key,
            row_closure::<K, V, GK, F>(group_key) ==> closure_known::<K, V, GK, F>(group_key),
    {
        proof {
            if row_closure::<K, V, GK, F>(group_key) {
                closure_laws::<K, V, GK, F>(group_key);
            }
        }
        CountByPlan { source: self, group_key, types: PhantomData }
    }
}

impl<K: MapKey, V: CellValue, M: MapQuery<Key = K, Value = V>> CountByExt<K, V> for M {

}

/// What a counted group holds, from the beginning on: where the changes that a counting runtime has
/// followed tell the truth, the number of the rows that the source has in the group. It is there if
/// and only if there is such a row, and what was told from the beginning on leads to it.
pub proof fn count_of_source<SK: MapKey, SV: CellValue, GK: MapKey, F: RowFn<SK, SV, GK>>(
    before: GroupedRuntime<SK, SV, GK, usize, CountOps<F>>,
    steps: Seq<Change<SK::Model, SV::Model>>,
    after: GroupedRuntime<SK, SV, GK, usize, CountOps<F>>,
    told: Seq<Change<GK::Model, usize>>,
    g: GK::Model,
) -> (keys: Set<SK::Model>)
    requires
        works_all::<SK, SV, GK, usize, GroupedRuntime<SK, SV, GK, usize, CountOps<F>>>(
            before,
            steps,
            after,
            told,
        ),
        before.grouped() == no_groups::<SK::Model, GK::Model, usize>(),
        fits_all(Map::empty(), steps),
        countable(Map::<SK::Model, SV::Model>::empty(), steps),
    ensures
        keys.finite(),
        forall|k: SK::Model| #[trigger]
            keys.contains(k) <==> replay(Map::empty(), steps).contains_key(k)
                && before.ops().group_key.image(k, replay(Map::empty(), steps)[k]) == g,
        after.output().contains_key(g) == exists|k: SK::Model| #[trigger] keys.contains(k),
        after.output().contains_key(g) ==> after.output()[g] == keys.len(),
        replay(Map::empty(), told) == after.output(),
        fits_all(Map::empty(), told),
{
    let none = Map::<SK::Model, SV::Model>::empty();
    let f = group_of::<SK, SV, GK, F>(before.ops().group_key);
    assert forall|x: GK::Model| #[trigger] group_keys(none, f, x).len() == 0 by {
        assert(group_keys(none, f, x) =~= Set::empty());
    }
    count_by_follows_source::<SK, SV, GK, F>(before, none, steps, after, told);
    grouping_follows_source::<SK, SV, GK, usize, CountOps<F>>(before, steps, after, told);
    assert(before.output() =~= Map::<GK::Model, usize>::empty());
    let m = replay(none, steps);
    counts_follow_source(before.grouped(), none, f, steps);
    let keys = group_keys(m, f, g);
    group_keys_finite(m, f, g);
    let _ = lookup(after.output(), g);
    let _ = after.grouped().groups.contains_key(g);
    if keys.len() > 0 {
        assert(keys.contains(keys.choose()));
    } else {
        assert(keys =~= Set::empty());
    }
    keys
}

} // verus!
