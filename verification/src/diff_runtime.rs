//! Grouping the rows of a map, and runtimes that work change by change.
use vstd::prelude::*;

use crate::delta::lookup_ext;
use crate::diff::{
    all_leaves, apply_change, atoms, entries_map, fits, fits_all, flat, replay, replay_concat,
    replay_push, steps_of, steps_of_push, Change, MapDiff,
};
use crate::fx::{lists, lookup, FxMap};
use crate::index::entry_keys;
use crate::join_runtime::rows::entries_map_keys;
use crate::map_runtime::emit_changes;
use crate::ordered_set::{extend_new, extend_new_contains, push_new, push_new_contains, OrderedSet};
use crate::value::{models, CellValue, MapKey};

verus! {

/// What a grouping does with its rows: the group of a row, and the state of a group as rows come,
/// change and go.
pub trait GroupedOps<SK: MapKey, SV: CellValue, GK: MapKey, OV: CellValue>: Send + Sync {
    /// The state of a group.
    type State: CellValue;

    /// The functions can be called, and depend on the models of their arguments alone.
    spec fn lawful(&self) -> bool;

    spec fn group_of(&self, key: SK::Model, value: SV::Model) -> GK::Model;

    spec fn fresh(&self) -> <Self::State as CellValue>::Model;

    spec fn inserted(
        &self,
        state: <Self::State as CellValue>::Model,
        key: SK::Model,
        value: SV::Model,
    ) -> <Self::State as CellValue>::Model;

    spec fn updated(
        &self,
        state: <Self::State as CellValue>::Model,
        key: SK::Model,
        old_value: SV::Model,
        new_value: SV::Model,
    ) -> <Self::State as CellValue>::Model;

    spec fn removed(
        &self,
        state: <Self::State as CellValue>::Model,
        key: SK::Model,
        old_value: SV::Model,
    ) -> <Self::State as CellValue>::Model;

    spec fn materialized(&self, state: <Self::State as CellValue>::Model) -> OV::Model;

    spec fn vacant(&self, state: <Self::State as CellValue>::Model) -> bool;

    fn make_group_key(&self, key: &SK, value: &SV) -> (group: GK)
        requires
            self.lawful(),
        ensures
            group.model() == self.group_of(key.model(), value.model()),
    ;

    fn new_group_state(&self) -> (state: Self::State)
        ensures
            state.model() == self.fresh(),
    ;

    fn on_insert(&self, state: Self::State, key: &SK, value: &SV) -> (next: Self::State)
        ensures
            next.model() == self.inserted(state.model(), key.model(), value.model()),
    ;

    fn on_update(&self, state: Self::State, key: &SK, old_value: &SV, new_value: &SV) -> (next:
        Self::State)
        ensures
            next.model() == self.updated(
                state.model(),
                key.model(),
                old_value.model(),
                new_value.model(),
            ),
    ;

    fn on_remove(&self, state: Self::State, key: &SK, old_value: &SV) -> (next: Self::State)
        ensures
            next.model() == self.removed(state.model(), key.model(), old_value.model()),
    ;

    fn materialize(&self, state: &Self::State) -> (value: OV)
        ensures
            value.model() == self.materialized(state.model()),
    ;

    fn is_empty(&self, state: &Self::State) -> (empty: bool)
        ensures
            empty == self.vacant(state.model()),
    ;
}

/// The group of each source row, and the state of each group.
#[verifier::reject_recursive_types(SK)]
#[verifier::reject_recursive_types(GK)]
pub struct Grouped<SK, GK, GS> {
    pub member: Map<SK, GK>,
    pub groups: Map<GK, GS>,
}

/// The functions of a grouping.
#[verifier::reject_recursive_types(SK)]
#[verifier::reject_recursive_types(SV)]
#[verifier::reject_recursive_types(GK)]
#[verifier::reject_recursive_types(GS)]
#[verifier::reject_recursive_types(OV)]
pub struct GroupFns<SK, SV, GK, GS, OV> {
    pub group_of: spec_fn(SK, SV) -> GK,
    pub fresh: GS,
    pub inserted: spec_fn(GS, SK, SV) -> GS,
    pub updated: spec_fn(GS, SK, SV, SV) -> GS,
    pub removed: spec_fn(GS, SK, SV) -> GS,
    pub materialized: spec_fn(GS) -> OV,
    pub vacant: spec_fn(GS) -> bool,
}

/// The functions of a grouping, as functions of models.
pub open spec fn group_fns<
    SK: MapKey,
    SV: CellValue,
    GK: MapKey,
    OV: CellValue,
    O: GroupedOps<SK, SV, GK, OV>,
>(ops: O) -> GroupFns<SK::Model, SV::Model, GK::Model, <O::State as CellValue>::Model, OV::Model> {
    GroupFns {
        group_of: |k: SK::Model, v: SV::Model| ops.group_of(k, v),
        fresh: ops.fresh(),
        inserted: |s: <O::State as CellValue>::Model, k: SK::Model, v: SV::Model| ops.inserted(s, k, v),
        updated: |s: <O::State as CellValue>::Model, k: SK::Model, u: SV::Model, v: SV::Model|
            ops.updated(s, k, u, v),
        removed: |s: <O::State as CellValue>::Model, k: SK::Model, u: SV::Model| ops.removed(s, k, u),
        materialized: |s: <O::State as CellValue>::Model| ops.materialized(s),
        vacant: |s: <O::State as CellValue>::Model| ops.vacant(s),
    }
}

/// The grouping without rows.
pub open spec fn no_groups<SK, GK, GS>() -> Grouped<SK, GK, GS> {
    Grouped { member: Map::empty(), groups: Map::empty() }
}

impl<SK, GK, GS> Grouped<SK, GK, GS> {
    /// The state of a group, or that of a new one.
    pub open spec fn state_of<SV, OV>(self, fns: GroupFns<SK, SV, GK, GS, OV>, g: GK) -> GS {
        if self.groups.contains_key(g) {
            self.groups[g]
        } else {
            fns.fresh
        }
    }

    /// A row comes to a group.
    pub open spec fn joined_by<SV, OV>(
        self,
        fns: GroupFns<SK, SV, GK, GS, OV>,
        g: GK,
        k: SK,
        v: SV,
    ) -> Grouped<SK, GK, GS> {
        Grouped {
            member: self.member.insert(k, g),
            groups: self.groups.insert(g, (fns.inserted)(self.state_of(fns, g), k, v)),
        }
    }

    /// A row leaves a group; a group that becomes vacant goes.
    pub open spec fn left_by<SV, OV>(
        self,
        fns: GroupFns<SK, SV, GK, GS, OV>,
        g: GK,
        k: SK,
        u: SV,
    ) -> Grouped<SK, GK, GS> {
        Grouped {
            member: self.member.remove(k),
            groups: if self.groups.contains_key(g) {
                let state = (fns.removed)(self.groups[g], k, u);
                if (fns.vacant)(state) {
                    self.groups.remove(g)
                } else {
                    self.groups.insert(g, state)
                }
            } else {
                self.groups
            },
        }
    }

    /// The group that a row is in: the one noted for it, or the one that its old value gives.
    pub open spec fn old_group<SV, OV>(
        self,
        fns: GroupFns<SK, SV, GK, GS, OV>,
        k: SK,
        u: SV,
    ) -> GK {
        if self.member.contains_key(k) {
            self.member[k]
        } else {
            (fns.group_of)(k, u)
        }
    }

    /// Entries come to their groups in turn.
    pub open spec fn load<SV, OV>(
        self,
        fns: GroupFns<SK, SV, GK, GS, OV>,
        entries: Seq<(SK, SV)>,
    ) -> Grouped<SK, GK, GS>
        decreases entries.len(),
    {
        if entries.len() == 0 {
            self
        } else {
            let (k, v) = entries.last();
            self.load(fns, entries.drop_last()).joined_by(fns, (fns.group_of)(k, v), k, v)
        }
    }

    /// What a change of the source makes of the grouping.
    pub open spec fn step<SV, OV>(
        self,
        fns: GroupFns<SK, SV, GK, GS, OV>,
        change: Change<SK, SV>,
    ) -> Grouped<SK, GK, GS> {
        match change {
            Change::Initial { entries } => no_groups::<SK, GK, GS>().load(fns, entries),
            Change::Insert { key, value } => self.joined_by(
                fns,
                (fns.group_of)(key, value),
                key,
                value,
            ),
            Change::Remove { key, old_value } => self.left_by(
                fns,
                self.old_group(fns, key, old_value),
                key,
                old_value,
            ),
            Change::Update { key, old_value, new_value } => {
                let a = self.old_group(fns, key, old_value);
                let b = (fns.group_of)(key, new_value);
                if a == b {
                    Grouped {
                        member: self.member.insert(key, b),
                        groups: self.groups.insert(
                            b,
                            (fns.updated)(self.state_of(fns, b), key, old_value, new_value),
                        ),
                    }
                } else {
                    self.left_by(fns, a, key, old_value).joined_by(fns, b, key, new_value)
                }
            },
        }
    }

    /// What changes of the source make of the grouping.
    pub open spec fn run<SV, OV>(
        self,
        fns: GroupFns<SK, SV, GK, GS, OV>,
        steps: Seq<Change<SK, SV>>,
    ) -> Grouped<SK, GK, GS>
        decreases steps.len(),
    {
        if steps.len() == 0 {
            self
        } else {
            self.run(fns, steps.drop_last()).step(fns, steps.last())
        }
    }

    /// The groups of entries.
    pub open spec fn entry_groups<SV, OV>(
        fns: GroupFns<SK, SV, GK, GS, OV>,
        entries: Seq<(SK, SV)>,
    ) -> Seq<GK> {
        entries.map_values(|e: (SK, SV)| (fns.group_of)(e.0, e.1))
    }

    /// The groups that a change of the source touches.
    pub open spec fn touched<SV, OV>(
        self,
        fns: GroupFns<SK, SV, GK, GS, OV>,
        change: Change<SK, SV>,
    ) -> Set<GK> {
        match change {
            Change::Initial { entries } => Set::new(
                |g: GK| self.groups.contains_key(g) || Self::entry_groups(fns, entries).contains(g),
            ),
            Change::Insert { key, value } => Set::empty().insert((fns.group_of)(key, value)),
            Change::Remove { key, old_value } => Set::empty().insert(
                self.old_group(fns, key, old_value),
            ),
            Change::Update { key, old_value, new_value } => Set::empty().insert(
                self.old_group(fns, key, old_value),
            ).insert((fns.group_of)(key, new_value)),
        }
    }

    /// The materialized groups.
    pub open spec fn output<SV, OV>(self, fns: GroupFns<SK, SV, GK, GS, OV>) -> Map<GK, OV> {
        Map::new(
            |g: GK| self.groups.contains_key(g),
            |g: GK| (fns.materialized)(self.groups[g]),
        )
    }

    /// No group but the touched ones changes.
    pub proof fn touched_covers<SV, OV>(
        self,
        fns: GroupFns<SK, SV, GK, GS, OV>,
        change: Change<SK, SV>,
    )
        ensures
            forall|g: GK|
                !self.touched(fns, change).contains(g) ==> #[trigger] lookup(
                    self.step(fns, change).groups,
                    g,
                ) == lookup(self.groups, g),
    {
        match change {
            Change::Initial { entries } => {
                no_groups::<SK, GK, GS>().load_covers(fns, entries);
                assert forall|g: GK| !self.touched(fns, change).contains(g) implies #[trigger] lookup(
                    self.step(fns, change).groups,
                    g,
                ) == lookup(self.groups, g) by {
                    assert(!Self::entry_groups(fns, entries).contains(g));
                    assert(lookup(no_groups::<SK, GK, GS>().load(fns, entries).groups, g) == lookup(
                        no_groups::<SK, GK, GS>().groups,
                        g,
                    ));
                }
            },
            _ => {},
        }
    }

    proof fn load_covers<SV, OV>(self, fns: GroupFns<SK, SV, GK, GS, OV>, entries: Seq<(SK, SV)>)
        ensures
            forall|g: GK|
                !Self::entry_groups(fns, entries).contains(g) ==> #[trigger] lookup(
                    self.load(fns, entries).groups,
                    g,
                ) == lookup(self.groups, g),
        decreases entries.len(),
    {
        if entries.len() > 0 {
            let rest = entries.drop_last();
            self.load_covers(fns, rest);
            let all = Self::entry_groups(fns, entries);
            let part = Self::entry_groups(fns, rest);
            assert forall|g: GK| !all.contains(g) implies #[trigger] lookup(
                self.load(fns, entries).groups,
                g,
            ) == lookup(self.groups, g) by {
                assert(all[entries.len() - 1] == (fns.group_of)(entries.last().0, entries.last().1));
                assert(!part.contains(g)) by {
                    if part.contains(g) {
                        let i = choose|i: int| 0 <= i < part.len() && part[i] == g;
                        assert(all[i] == g);
                    }
                }
                assert(lookup(self.load(fns, rest).groups, g) == lookup(self.groups, g));
            }
        }
    }
}

/// The change that a touched group is told with, if any: a group that stays is told as updated.
pub open spec fn group_change<K, V>(key: K, old_value: Option<V>, new_value: Option<V>) -> Seq<
    Change<K, V>,
> {
    match (old_value, new_value) {
        (None, None) => Seq::empty(),
        (None, Some(n)) => seq![Change::Insert { key, value: n }],
        (Some(o), None) => seq![Change::Remove { key, old_value: o }],
        (Some(o), Some(n)) => seq![Change::Update { key, old_value: o, new_value: n }],
    }
}

/// What is told of touched groups, in order.
pub open spec fn told_groups<K, V>(before: Map<K, V>, keys: Seq<K>, after: Map<K, V>) -> Seq<
    Change<K, V>,
>
    decreases keys.len(),
{
    if keys.len() == 0 {
        Seq::empty()
    } else {
        told_groups(before, keys.drop_last(), after) + group_change(
            keys.last(),
            lookup(before, keys.last()),
            lookup(after, keys.last()),
        )
    }
}

/// What is told of touched groups fits the output and leads to the new output.
pub proof fn told_groups_replay<K, V>(before: Map<K, V>, keys: Seq<K>, after: Map<K, V>)
    requires
        keys.no_duplicates(),
    ensures
        fits_all(before, told_groups(before, keys, after)),
        forall|k: K| #[trigger]
            lookup(replay(before, told_groups(before, keys, after)), k) == if keys.contains(k) {
                lookup(after, k)
            } else {
                lookup(before, k)
            },
    decreases keys.len(),
{
    if keys.len() > 0 {
        let rest = keys.drop_last();
        let k = keys.last();
        told_groups_replay(before, rest, after);
        assert(!rest.contains(k));
        let told = told_groups(before, rest, after);
        let mid = replay(before, told);
        let more = group_change(k, lookup(before, k), lookup(after, k));
        assert(lookup(mid, k) == lookup(before, k));
        if more.len() > 0 {
            assert(more =~= Seq::empty().push(more[0]));
            replay_push(mid, Seq::empty(), more[0]);
        }
        replay_concat(before, told, more);
        assert forall|x: K| #[trigger] lookup(
            replay(before, told_groups(before, keys, after)),
            x,
        ) == if keys.contains(x) {
            lookup(after, x)
        } else {
            lookup(before, x)
        } by {
            assert(keys.contains(x) <==> rest.contains(x) || x == k) by {
                if rest.contains(x) {
                    let i = choose|i: int| 0 <= i < rest.len() && rest[i] == x;
                    assert(keys[i] == x);
                }
                assert(keys[keys.len() - 1] == k);
                if keys.contains(x) {
                    let i = choose|i: int| 0 <= i < keys.len() && keys[i] == x;
                    if i < rest.len() {
                        assert(rest[i] == x);
                    }
                }
            }
            assert(lookup(mid, x) == if rest.contains(x) {
                lookup(after, x)
            } else {
                lookup(before, x)
            });
        }
    }
}

/// A runtime that works change by change.
pub trait DiffRuntime<SK: MapKey, SV: CellValue, OK: MapKey, OV: CellValue>: Sized {
    spec fn wf(&self) -> bool;

    /// What a change makes of the runtime, and what is told of it.
    spec fn works(
        before: Self,
        change: Change<SK::Model, SV::Model>,
        after: Self,
        told: Seq<Change<OK::Model, OV::Model>>,
    ) -> bool;

    /// Follows a change, and appends what is told of it.
    fn apply_atomic(&mut self, leaf: &MapDiff<SK, SV>, downstream: &mut Vec<MapDiff<OK, OV>>) -> (told: Ghost<
        Seq<Change<OK::Model, OV::Model>>,
    >)
        requires
            old(self).wf(),
            !(leaf is Batch),
            flat(old(downstream)@),
        ensures
            final(self).wf(),
            flat(final(downstream)@),
            Self::works(*old(self), leaf.atom(), *final(self), told@),
            steps_of(final(downstream)@) == steps_of(old(downstream)@) + told@,
    ;
}

/// What changes in order make of a runtime, and what is told of them.
pub open spec fn works_all<
    SK: MapKey,
    SV: CellValue,
    OK: MapKey,
    OV: CellValue,
    R: DiffRuntime<SK, SV, OK, OV>,
>(
    before: R,
    steps: Seq<Change<SK::Model, SV::Model>>,
    after: R,
    told: Seq<Change<OK::Model, OV::Model>>,
) -> bool
    decreases steps.len(),
{
    if steps.len() == 0 {
        after == before && told == Seq::<Change<OK::Model, OV::Model>>::empty()
    } else {
        exists|mid: R, a: Seq<Change<OK::Model, OV::Model>>, b: Seq<Change<OK::Model, OV::Model>>|
            works_all::<SK, SV, OK, OV, R>(before, steps.drop_last(), mid, a) && #[trigger] R::works(
                mid,
                steps.last(),
                after,
                b,
            ) && told == #[trigger] (a + b)
    }
}

/// A runtime that works change by change, and tells of each event as one batch.
pub struct DiffDriver<R> {
    pub state: R,
}

pub fn install_diff_runtime_via_query<R>(initial_state: R) -> (driver: DiffDriver<R>)
    ensures
        driver.state == initial_state,
{
    DiffDriver { state: initial_state }
}

impl<R> DiffDriver<R> {
    /// Follows a diff, and tells of it as one batch, or not at all where nothing changes.
    pub fn apply<SK: MapKey, SV: CellValue, OK: MapKey, OV: CellValue>(
        &mut self,
        diff: &MapDiff<SK, SV>,
    ) -> (emitted: Option<MapDiff<OK, OV>>) where R: DiffRuntime<SK, SV, OK, OV>
        requires
            old(self).state.wf(),
        ensures
            final(self).state.wf(),
            match emitted {
                Some(batch) => batch is Batch && flat(batch->changes@) && batch.steps().len() > 0
                    && works_all::<SK, SV, OK, OV, R>(old(self).state, diff.steps(), final(self).state, batch.steps()),
                None => works_all::<SK, SV, OK, OV, R>(
                    old(self).state,
                    diff.steps(),
                    final(self).state,
                    Seq::empty(),
                ),
            },
    {
        let ghost steps = diff.steps();
        let leaves = diff.leaves();
        let mut changes: Vec<MapDiff<OK, OV>> = Vec::new();
        let mut i: usize = 0;
        assert(steps.take(0) =~= Seq::empty());
        assert(steps_of(changes@) =~= Seq::empty());
        while i < leaves.len()
            invariant
                i <= leaves@.len(),
                all_leaves(leaves@),
                atoms(leaves@) == steps,
                self.state.wf(),
                flat(changes@),
                works_all::<SK, SV, OK, OV, R>(
                    old(self).state,
                    steps.take(i as int),
                    self.state,
                    steps_of(changes@),
                ),
            decreases leaves@.len() - i,
        {
            let ghost mid = self.state;
            let ghost sofar = steps_of(changes@);
            let told = self.state.apply_atomic(leaves[i], &mut changes);
            proof {
                assert(steps[i as int] == leaves@[i as int].atom());
                let part = steps.take(i + 1);
                assert(part.drop_last() =~= steps.take(i as int));
                assert(part.last() == steps[i as int]);
                assert(R::works(mid, part.last(), self.state, told@));
                assert(steps_of(changes@) == sofar + told@);
                assert(works_all::<SK, SV, OK, OV, R>(
                    old(self).state,
                    part.drop_last(),
                    mid,
                    sofar,
                ));
            }
            i += 1;
        }
        proof {
            assert(steps.take(i as int) =~= steps);
            crate::diff::steps_of_flat(changes@);
        }
        let ghost all = changes@;
        let emitted = emit_changes(changes);
        proof {
            if all.len() == 0 {
                assert(steps_of(all) =~= Seq::empty());
            } else {
                assert(emitted->Some_0.steps() == steps_of(all));
            }
        }
        emitted
    }
}

/// The rows of a source in groups.
#[verifier::reject_recursive_types(SK)]
#[verifier::reject_recursive_types(SV)]
#[verifier::reject_recursive_types(GK)]
#[verifier::reject_recursive_types(OV)]
pub struct GroupedRuntime<
    SK: MapKey,
    SV: CellValue,
    GK: MapKey,
    OV: CellValue,
    O: GroupedOps<SK, SV, GK, OV>,
> {
    ops: O,
    source_to_group: FxMap<SK, GK>,
    groups: FxMap<GK, O::State>,
    types: std::marker::PhantomData<(SV, OV)>,
}

impl<
    SK: MapKey,
    SV: CellValue,
    GK: MapKey,
    OV: CellValue,
    O: GroupedOps<SK, SV, GK, OV>,
> GroupedRuntime<SK, SV, GK, OV, O> {
    pub closed spec fn ops(&self) -> O {
        self.ops
    }

    /// The functions of the grouping.
    pub open spec fn fns(&self) -> GroupFns<
        SK::Model,
        SV::Model,
        GK::Model,
        <O::State as CellValue>::Model,
        OV::Model,
    > {
        group_fns::<SK, SV, GK, OV, O>(self.ops())
    }

    /// The group of each source row, and the state of each group.
    pub closed spec fn grouped(&self) -> Grouped<
        SK::Model,
        GK::Model,
        <O::State as CellValue>::Model,
    > {
        Grouped { member: self.source_to_group@, groups: self.groups@ }
    }

    /// The materialized groups.
    pub open spec fn output(&self) -> Map<GK::Model, OV::Model> {
        self.grouped().output(self.fns())
    }

    /// The materialized group of a key.
    pub fn get(&self, group: &GK) -> (value: Option<OV>)
        ensures
            value.model() == lookup(self.output(), group.model()),
    {
        match self.groups.get(group) {
            Some(state) => Some(self.ops.materialize(state)),
            None => None,
        }
    }

    /// Notes what a group held before the event, the first time that the event touches it.
    fn capture_before(
        &self,
        group: &GK,
        before: &mut FxMap<GK, Option<OV>>,
        touched: &mut OrderedSet<GK>,
        Ghost(start): Ghost<Map<GK::Model, OV::Model>>,
    )
        requires
            old(touched).wf(),
            captured(start, old(before)@, old(touched)@),
            !old(before)@.contains_key(group.model()) ==> lookup(self.output(), group.model())
                == lookup(start, group.model()),
        ensures
            final(touched).wf(),
            final(touched)@ == push_new(old(touched)@, group.model()),
            captured(start, final(before)@, final(touched)@),
    {
        proof {
            touched.distinct();
            push_new_contains(touched@, group.model());
        }
        if !before.contains_key(group) {
            let held = self.get(group);
            before.insert(group.clone_value(), held);
        }
        touched.insert(group.clone_value());
    }

    /// Tells of each touched group what it held before and what it holds now.
    fn emit_touched(
        &self,
        touched: &Vec<GK>,
        before: &FxMap<GK, Option<OV>>,
        downstream: &mut Vec<MapDiff<GK, OV>>,
        Ghost(start): Ghost<Map<GK::Model, OV::Model>>,
    )
        requires
            captured(start, before@, models(touched@)),
            flat(old(downstream)@),
        ensures
            flat(final(downstream)@),
            steps_of(final(downstream)@) == steps_of(old(downstream)@) + told_groups(
                start,
                models(touched@),
                self.output(),
            ),
    {
        let ghost keys = models(touched@);
        let ghost end = self.output();
        let ghost from = steps_of(downstream@);
        let mut i: usize = 0;
        proof {
            assert(keys.take(0) =~= Seq::empty());
            assert(from + Seq::empty() =~= from);
        }
        while i < touched.len()
            invariant
                i <= touched@.len(),
                keys == models(touched@),
                end == self.output(),
                captured(start, before@, keys),
                flat(downstream@),
                steps_of(downstream@) == from + told_groups(start, keys.take(i as int), end),
            decreases touched@.len() - i,
        {
            let group = &touched[i];
            let ghost g = group.model();
            let ghost sofar = told_groups(start, keys.take(i as int), end);
            let ghost had = downstream@;
            proof {
                assert(keys.take(i + 1).drop_last() =~= keys.take(i as int));
                assert(keys.take(i + 1).last() == g);
                assert(keys.contains(g)) by {
                    assert(keys[i as int] == g);
                }
            }
            let old_value: Option<OV> = match before.get(group) {
                Some(held) => held.clone_value(),
                None => None,
            };
            let new_value = self.get(group);
            let ghost more = group_change(g, lookup(start, g), lookup(end, g));
            assert(from + (sofar + more) =~= (from + sofar) + more);
            match (old_value, new_value) {
                (Some(old_value), Some(new_value)) => {
                    let diff = MapDiff::Update { key: group.clone_value(), old_value, new_value };
                    proof {
                        steps_of_push(had, diff);
                        assert(steps_of(had).push(diff.atom()) =~= steps_of(had) + more);
                    }
                    downstream.push(diff);
                },
                (None, Some(value)) => {
                    let diff = MapDiff::Insert { key: group.clone_value(), value };
                    proof {
                        steps_of_push(had, diff);
                        assert(steps_of(had).push(diff.atom()) =~= steps_of(had) + more);
                    }
                    downstream.push(diff);
                },
                (Some(old_value), None) => {
                    let diff = MapDiff::Remove { key: group.clone_value(), old_value };
                    proof {
                        steps_of_push(had, diff);
                        assert(steps_of(had).push(diff.atom()) =~= steps_of(had) + more);
                    }
                    downstream.push(diff);
                },
                (None, None) => {
                    assert(steps_of(had) + more =~= steps_of(had));
                },
            }
            i += 1;
        }
        assert(keys.take(i as int) =~= keys);
    }

    fn enter_group(&mut self, group: GK, key: &SK, value: &SV)
        ensures
            final(self).ops() == old(self).ops(),
            final(self).grouped() == old(self).grouped().joined_by(
                old(self).fns(),
                group.model(),
                key.model(),
                value.model(),
            ),
    {
        let ghost start = self.grouped();
        self.source_to_group.insert(key.clone_value(), group.clone_value());
        let state: O::State = match self.groups.remove(&group) {
            Some(state) => state,
            None => self.ops.new_group_state(),
        };
        let next = self.ops.on_insert(state, key, value);
        self.groups.insert(group, next);
        assert(self.groups@ =~= start.joined_by(
            old(self).fns(),
            group.model(),
            key.model(),
            value.model(),
        ).groups);
    }

    fn leave_group(&mut self, group: &GK, key: &SK, old_value: &SV)
        ensures
            final(self).ops() == old(self).ops(),
            final(self).grouped().groups == old(self).grouped().left_by(
                old(self).fns(),
                group.model(),
                key.model(),
                old_value.model(),
            ).groups,
            final(self).grouped().member == old(self).grouped().member,
    {
        let ghost start = self.grouped();
        match self.groups.remove(group) {
            Some(state) => {
                let next = self.ops.on_remove(state, key, old_value);
                if !self.ops.is_empty(&next) {
                    self.groups.insert(group.clone_value(), next);
                }
            },
            None => {},
        }
        assert(self.groups@ =~= start.left_by(
            old(self).fns(),
            group.model(),
            key.model(),
            old_value.model(),
        ).groups);
    }
}

/// Each touched group has what it held before noted.
pub open spec fn captured<GK, OV>(
    start: Map<GK, OV>,
    before: Map<GK, Option<OV>>,
    touched: Seq<GK>,
) -> bool {
    &&& forall|g: GK| #[trigger] before.contains_key(g) <==> touched.contains(g)
    &&& forall|g: GK| #[trigger] before.contains_key(g) ==> before[g] == lookup(start, g)
}

impl<
    SK: MapKey,
    SV: CellValue,
    GK: MapKey,
    OV: CellValue,
    O: GroupedOps<SK, SV, GK, OV>,
> DiffRuntime<SK, SV, GK, OV> for GroupedRuntime<SK, SV, GK, OV, O> {
    open spec fn wf(&self) -> bool {
        self.ops().lawful()
    }

    /// The grouping follows the change, and each touched group is told of, in some order.
    open spec fn works(
        before: Self,
        change: Change<SK::Model, SV::Model>,
        after: Self,
        told: Seq<Change<GK::Model, OV::Model>>,
    ) -> bool {
        &&& after.ops() == before.ops()
        &&& after.grouped() == before.grouped().step(before.fns(), change)
        &&& exists|keys: Seq<GK::Model>| #[trigger]
            lists(keys, before.grouped().touched(before.fns(), change)) && told == told_groups(
                before.output(),
                keys,
                after.output(),
            )
    }

    fn apply_atomic(&mut self, leaf: &MapDiff<SK, SV>, downstream: &mut Vec<MapDiff<GK, OV>>) -> (told: Ghost<
        Seq<Change<GK::Model, OV::Model>>,
    >) {
        let ghost begin = *self;
        let ghost start = self.output();
        let ghost fns = self.fns();
        let ghost change = leaf.atom();
        let mut touched: OrderedSet<GK> = OrderedSet::new();
        let mut before: FxMap<GK, Option<OV>> = FxMap::new();
        match leaf {
            MapDiff::Initial { entries } => {
                let groups = self.groups.keys();
                let ghost listed = models(groups@);
                let mut n: usize = 0;
                while n < groups.len()
                    invariant
                        n <= groups@.len(),
                        listed == models(groups@),
                        lists(listed, begin.grouped().groups.dom()),
                        *self == begin,
                        start == self.output(),
                        touched.wf(),
                        touched@ == extend_new(Seq::empty(), listed.take(n as int)),
                        captured(start, before@, touched@),
                    decreases groups@.len() - n,
                {
                    proof {
                        assert(listed.take(n + 1).drop_last() =~= listed.take(n as int));
                        assert(listed.take(n + 1).last() == groups@[n as int].model());
                    }
                    self.capture_before(&groups[n], &mut before, &mut touched, Ghost(start));
                    n += 1;
                }
                proof {
                    assert(listed.take(n as int) =~= listed);
                    extend_new_contains(Seq::<GK::Model>::empty(), listed);
                }
                self.groups.clear();
                self.source_to_group.clear();
                let ghost all = models(entries@);
                let ghost names = Grouped::<SK::Model, GK::Model, <O::State as CellValue>::Model>::entry_groups(
                    fns,
                    all,
                );
                let ghost base = touched@;
                let mut i: usize = 0;
                proof {
                    assert(all.take(0) =~= Seq::empty());
                    assert(names.take(0) =~= Seq::empty());
                    assert forall|g: GK::Model| !base.contains(g) implies lookup(start, g)
                        == None::<OV::Model> by {
                        assert(listed.contains(g) <==> begin.grouped().groups.dom().contains(g));
                    }
                }
                while i < entries.len()
                    invariant
                        i <= entries@.len(),
                        all == models(entries@),
                        fns == begin.fns(),
                        names == Grouped::<
                            SK::Model,
                            GK::Model,
                            <O::State as CellValue>::Model,
                        >::entry_groups(fns, all),
                        self.ops() == begin.ops(),
                        self.ops().lawful(),
                        self.grouped() == no_groups::<
                            SK::Model,
                            GK::Model,
                            <O::State as CellValue>::Model,
                        >().load(fns, all.take(i as int)),
                        touched.wf(),
                        base.no_duplicates(),
                        touched@ == extend_new(base, names.take(i as int)),
                        forall|g: GK::Model| !base.contains(g) ==> #[trigger] lookup(start, g)
                            == None::<OV::Model>,
                        captured(start, before@, touched@),
                    decreases entries@.len() - i,
                {
                    let (key, value) = &entries[i];
                    let group = self.ops.make_group_key(key, value);
                    let ghost g = group.model();
                    proof {
                        assert(all.take(i + 1).drop_last() =~= all.take(i as int));
                        assert(all.take(i + 1).last() == (key.model(), value.model()));
                        assert(names[i as int] == g);
                        assert(names.take(i + 1).drop_last() =~= names.take(i as int));
                        assert(names.take(i + 1).last() == g);
                        extend_new_contains(base, names.take(i as int));
                        push_new_contains(touched@, g);
                    }
                    if !before.contains_key(&group) {
                        proof {
                            assert(!base.contains(g));
                        }
                        before.insert(group.clone_value(), None);
                    }
                    touched.insert(group.clone_value());
                    self.enter_group(group, key, value);
                    i += 1;
                }
                proof {
                    assert(all.take(i as int) =~= all);
                    assert(names.take(i as int) =~= names);
                    extend_new_contains(base, names);
                    assert forall|g: GK::Model| touched@.contains(g) <==> begin.grouped().touched(
                        fns,
                        change,
                    ).contains(g) by {
                        assert(listed.contains(g) <==> begin.grouped().groups.dom().contains(g));
                    }
                }
            },
            MapDiff::Insert { key, value } => {
                let group = self.ops.make_group_key(key, value);
                proof {
                    push_new_contains(touched@, group.model());
                }
                self.capture_before(&group, &mut before, &mut touched, Ghost(start));
                self.enter_group(group, key, value);
            },
            MapDiff::Update { key, old_value, new_value } => {
                let new_group = self.ops.make_group_key(key, new_value);
                let old_group: GK = match self.source_to_group.get(key) {
                    Some(group) => group.clone_value(),
                    None => self.ops.make_group_key(key, old_value),
                };
                proof {
                    push_new_contains(touched@, old_group.model());
                    push_new_contains(push_new(touched@, old_group.model()), new_group.model());
                }
                self.capture_before(&old_group, &mut before, &mut touched, Ghost(start));
                self.capture_before(&new_group, &mut before, &mut touched, Ghost(start));
                if old_group.equals(&new_group) {
                    let ghost held = self.grouped();
                    let state: O::State = match self.groups.remove(&new_group) {
                        Some(state) => state,
                        None => self.ops.new_group_state(),
                    };
                    let next = self.ops.on_update(state, key, old_value, new_value);
                    self.groups.insert(new_group.clone_value(), next);
                    self.source_to_group.insert(key.clone_value(), new_group);
                    assert(self.groups@ =~= held.step(fns, change).groups);
                } else {
                    let ghost held = self.grouped();
                    self.leave_group(&old_group, key, old_value);
                    let ghost mid = self.grouped();
                    self.enter_group(new_group, key, new_value);
                    proof {
                        let want = held.left_by(fns, old_group.model(), key.model(), old_value.model());
                        assert(mid.groups == want.groups);
                        assert(mid.member.insert(key.model(), new_group.model())
                            =~= want.member.insert(key.model(), new_group.model()));
                    }
                }
            },
            MapDiff::Remove { key, old_value } => {
                let group: GK = match self.source_to_group.get(key) {
                    Some(group) => group.clone_value(),
                    None => self.ops.make_group_key(key, old_value),
                };
                proof {
                    push_new_contains(touched@, group.model());
                }
                self.capture_before(&group, &mut before, &mut touched, Ghost(start));
                self.leave_group(&group, key, old_value);
                self.source_to_group.remove(key);
            },
            MapDiff::Batch { .. } => {},
        }
        proof {
            touched.distinct();
        }
        let order = touched.drain();
        let ghost keys = models(order@);
        self.emit_touched(&order, &before, downstream, Ghost(start));
        proof {
            assert(lists(keys, begin.grouped().touched(fns, change)));
        }
        Ghost(told_groups(start, keys, self.output()))
    }
}

/// A grouping of a source without rows.
pub fn install_grouped_runtime_via_query<
    SK: MapKey,
    SV: CellValue,
    GK: MapKey,
    OV: CellValue,
    O: GroupedOps<SK, SV, GK, OV>,
>(ops: O) -> (driver: DiffDriver<GroupedRuntime<SK, SV, GK, OV, O>>)
    requires
        ops.lawful(),
    ensures
        driver.state.wf(),
        driver.state.ops() == ops,
        driver.state.grouped() == no_groups::<
            SK::Model,
            GK::Model,
            <O::State as CellValue>::Model,
        >(),
{
    install_diff_runtime_via_query(
        GroupedRuntime {
            ops,
            source_to_group: FxMap::new(),
            groups: FxMap::new(),
            types: std::marker::PhantomData,
        },
    )
}

/// What is told of an event of a grouping fits the groups that it had and leads to those that it
/// has, and the grouping is the one that the changes of the source make.
pub proof fn grouping_follows_source<
    SK: MapKey,
    SV: CellValue,
    GK: MapKey,
    OV: CellValue,
    O: GroupedOps<SK, SV, GK, OV>,
>(
    before: GroupedRuntime<SK, SV, GK, OV, O>,
    steps: Seq<Change<SK::Model, SV::Model>>,
    after: GroupedRuntime<SK, SV, GK, OV, O>,
    told: Seq<Change<GK::Model, OV::Model>>,
)
    requires
        works_all::<SK, SV, GK, OV, GroupedRuntime<SK, SV, GK, OV, O>>(before, steps, after, told),
    ensures
        after.ops() == before.ops(),
        after.grouped() == before.grouped().run(before.fns(), steps),
        fits_all(before.output(), told),
        replay(before.output(), told) == after.output(),
    decreases steps.len(),
{
    if steps.len() > 0 {
        let rest = steps.drop_last();
        let (mid, a, b) = choose|
            mid: GroupedRuntime<SK, SV, GK, OV, O>,
            a: Seq<Change<GK::Model, OV::Model>>,
            b: Seq<Change<GK::Model, OV::Model>>,
        |
            works_all::<SK, SV, GK, OV, GroupedRuntime<SK, SV, GK, OV, O>>(before, rest, mid, a)
                && #[trigger] GroupedRuntime::<SK, SV, GK, OV, O>::works(mid, steps.last(), after, b)
                && told == #[trigger] (a + b);
        grouping_follows_source::<SK, SV, GK, OV, O>(before, rest, mid, a);
        let fns = mid.fns();
        let touched = mid.grouped().touched(fns, steps.last());
        let keys = choose|keys: Seq<GK::Model>| #[trigger]
            lists(keys, touched) && b == told_groups(mid.output(), keys, after.output());
        told_groups_replay(mid.output(), keys, after.output());
        mid.grouped().touched_covers(fns, steps.last());
        replay_concat(before.output(), a, b);
        assert forall|g: GK::Model| #[trigger] lookup(replay(mid.output(), b), g) == lookup(
            after.output(),
            g,
        ) by {
            if !keys.contains(g) {
                assert(!touched.contains(g));
                assert(lookup(mid.grouped().step(fns, steps.last()).groups, g) == lookup(
                    mid.grouped().groups,
                    g,
                ));
                assert(lookup(mid.output(), g) == lookup(after.output(), g));
            }
        }
        lookup_ext(replay(mid.output(), b), after.output());
    }
}

/// The rows of a map that are in a group.
pub open spec fn group_rows<SK, SV, GK>(m: Map<SK, SV>, group_of: spec_fn(SK, SV) -> GK, g: GK) -> Map<
    SK,
    SV,
> {
    Map::new(|k: SK| m.contains_key(k) && group_of(k, m[k]) == g, |k: SK| m[k])
}

/// The rows of a group decide its state: none give that of a new group, and a row that comes, changes
/// or goes leads to the state of the rows that are then there. A state is vacant without rows alone.
pub open spec fn decided_by_rows<SK, SV, GK, GS, OV>(
    fns: GroupFns<SK, SV, GK, GS, OV>,
    state_for: spec_fn(Map<SK, SV>) -> GS,
) -> bool {
    &&& state_for(Map::empty()) == fns.fresh
    &&& forall|rows: Map<SK, SV>, k: SK, v: SV|
        rows.dom().finite() && !rows.contains_key(k) ==> #[trigger] (fns.inserted)(
            state_for(rows),
            k,
            v,
        ) == state_for(rows.insert(k, v))
    &&& forall|rows: Map<SK, SV>, k: SK, v: SV|
        rows.dom().finite() && rows.contains_key(k) ==> #[trigger] (fns.updated)(
            state_for(rows),
            k,
            rows[k],
            v,
        ) == state_for(rows.insert(k, v))
    &&& forall|rows: Map<SK, SV>, k: SK|
        rows.dom().finite() && rows.contains_key(k) ==> #[trigger] (fns.removed)(
            state_for(rows),
            k,
            rows[k],
        ) == state_for(rows.remove(k))
    &&& forall|rows: Map<SK, SV>|
        rows.dom().finite() ==> #[trigger] (fns.vacant)(state_for(rows)) == (rows.dom()
            == Set::<SK>::empty())
}

/// Each group of a map holds the state of its rows, and no other group is there.
pub open spec fn groups_hold<SK, SV, GK, GS, OV>(
    grouped: Grouped<SK, GK, GS>,
    m: Map<SK, SV>,
    fns: GroupFns<SK, SV, GK, GS, OV>,
    state_for: spec_fn(Map<SK, SV>) -> GS,
) -> bool {
    &&& forall|k: SK| #[trigger] grouped.member.contains_key(k) == m.contains_key(k)
    &&& forall|k: SK| #[trigger]
        grouped.member.contains_key(k) ==> grouped.member[k] == (fns.group_of)(k, m[k])
    &&& forall|g: GK| #[trigger]
        lookup(grouped.groups, g) == if group_rows(m, fns.group_of, g).dom() == Set::<SK>::empty() {
            None
        } else {
            Some(state_for(group_rows(m, fns.group_of, g)))
        }
}

proof fn group_rows_finite<SK, SV, GK>(m: Map<SK, SV>, group_of: spec_fn(SK, SV) -> GK, g: GK)
    requires
        m.dom().finite(),
    ensures
        group_rows(m, group_of, g).dom().finite(),
{
    assert(group_rows(m, group_of, g).dom().subset_of(m.dom()));
    vstd::set_lib::lemma_len_subset(group_rows(m, group_of, g).dom(), m.dom());
}

/// The state of a group of a grouping, or that of a new one, is that of its rows.
proof fn held_state<SK, SV, GK, GS, OV>(
    grouped: Grouped<SK, GK, GS>,
    m: Map<SK, SV>,
    fns: GroupFns<SK, SV, GK, GS, OV>,
    state_for: spec_fn(Map<SK, SV>) -> GS,
    g: GK,
)
    requires
        decided_by_rows(fns, state_for),
        groups_hold(grouped, m, fns, state_for),
    ensures
        grouped.state_of(fns, g) == state_for(group_rows(m, fns.group_of, g)),
        grouped.groups.contains_key(g) == (group_rows(m, fns.group_of, g).dom() != Set::<SK>::empty()),
{
    let rows = group_rows(m, fns.group_of, g);
    let _ = lookup(grouped.groups, g);
    if rows.dom() == Set::<SK>::empty() {
        assert(rows =~= Map::empty());
    }
}

proof fn groups_hold_insert<SK, SV, GK, GS, OV>(
    grouped: Grouped<SK, GK, GS>,
    m: Map<SK, SV>,
    fns: GroupFns<SK, SV, GK, GS, OV>,
    state_for: spec_fn(Map<SK, SV>) -> GS,
    k: SK,
    v: SV,
)
    requires
        decided_by_rows(fns, state_for),
        groups_hold(grouped, m, fns, state_for),
        m.dom().finite(),
        !m.contains_key(k),
    ensures
        groups_hold(
            grouped.joined_by(fns, (fns.group_of)(k, v), k, v),
            m.insert(k, v),
            fns,
            state_for,
        ),
{
    let g = (fns.group_of)(k, v);
    let after = grouped.joined_by(fns, g, k, v);
    let m2 = m.insert(k, v);
    let rows = group_rows(m, fns.group_of, g);
    held_state(grouped, m, fns, state_for, g);
    group_rows_finite(m, fns.group_of, g);
    assert(group_rows(m2, fns.group_of, g) =~= rows.insert(k, v));
    assert((fns.inserted)(state_for(rows), k, v) == state_for(rows.insert(k, v)));
    assert(rows.insert(k, v).dom().contains(k));
    assert forall|x: GK| #[trigger] lookup(after.groups, x) == if group_rows(m2, fns.group_of, x).dom()
        == Set::<SK>::empty() {
        None
    } else {
        Some(state_for(group_rows(m2, fns.group_of, x)))
    } by {
        if x != g {
            assert(group_rows(m2, fns.group_of, x) =~= group_rows(m, fns.group_of, x));
            assert(lookup(after.groups, x) == lookup(grouped.groups, x));
        }
    }
    assert forall|x: SK| #[trigger] after.member.contains_key(x) implies after.member[x] == (
    fns.group_of)(x, m2[x]) by {
        if x != k {
            assert(grouped.member.contains_key(x));
        }
    }
}

proof fn groups_hold_remove<SK, SV, GK, GS, OV>(
    grouped: Grouped<SK, GK, GS>,
    m: Map<SK, SV>,
    fns: GroupFns<SK, SV, GK, GS, OV>,
    state_for: spec_fn(Map<SK, SV>) -> GS,
    k: SK,
)
    requires
        decided_by_rows(fns, state_for),
        groups_hold(grouped, m, fns, state_for),
        m.dom().finite(),
        m.contains_key(k),
    ensures
        groups_hold(
            grouped.left_by(fns, (fns.group_of)(k, m[k]), k, m[k]),
            m.remove(k),
            fns,
            state_for,
        ),
{
    let g = (fns.group_of)(k, m[k]);
    let after = grouped.left_by(fns, g, k, m[k]);
    let m2 = m.remove(k);
    let rows = group_rows(m, fns.group_of, g);
    let less = rows.remove(k);
    assert(rows.contains_key(k));
    assert(rows.dom().contains(k));
    held_state(grouped, m, fns, state_for, g);
    group_rows_finite(m, fns.group_of, g);
    assert(group_rows(m2, fns.group_of, g) =~= less);
    assert((fns.removed)(state_for(rows), k, rows[k]) == state_for(less));
    assert((fns.vacant)(state_for(less)) == (less.dom() == Set::<SK>::empty()));
    assert forall|x: GK| #[trigger] lookup(after.groups, x) == if group_rows(m2, fns.group_of, x).dom()
        == Set::<SK>::empty() {
        None
    } else {
        Some(state_for(group_rows(m2, fns.group_of, x)))
    } by {
        if x != g {
            assert(group_rows(m2, fns.group_of, x) =~= group_rows(m, fns.group_of, x));
            assert(lookup(after.groups, x) == lookup(grouped.groups, x));
        }
    }
    assert forall|x: SK| #[trigger] after.member.contains_key(x) implies after.member[x] == (
    fns.group_of)(x, m2[x]) by {
        assert(grouped.member.contains_key(x));
    }
}

proof fn groups_hold_load<SK, SV, GK, GS, OV>(
    fns: GroupFns<SK, SV, GK, GS, OV>,
    state_for: spec_fn(Map<SK, SV>) -> GS,
    entries: Seq<(SK, SV)>,
)
    requires
        decided_by_rows(fns, state_for),
        entry_keys(entries).no_duplicates(),
    ensures
        groups_hold(
            no_groups::<SK, GK, GS>().load(fns, entries),
            entries_map(entries),
            fns,
            state_for,
        ),
        entries_map(entries).dom().finite(),
    decreases entries.len(),
{
    if entries.len() > 0 {
        let rest = entries.drop_last();
        let (k, v) = entries.last();
        assert(entry_keys(rest) =~= entry_keys(entries).drop_last());
        groups_hold_load(fns, state_for, rest);
        entries_map_keys(rest);
        assert(!entry_keys(rest).contains(k)) by {
            if entry_keys(rest).contains(k) {
                let i = choose|i: int| 0 <= i < rest.len() && entry_keys(rest)[i] == k;
                assert(entry_keys(entries)[i] == entry_keys(entries)[entries.len() - 1]);
            }
        }
        groups_hold_insert(
            no_groups::<SK, GK, GS>().load(fns, rest),
            entries_map(rest),
            fns,
            state_for,
            k,
            v,
        );
    } else {
        let m = entries_map(entries);
        let none = no_groups::<SK, GK, GS>().load(fns, entries);
        assert forall|g: GK| #[trigger] lookup(none.groups, g) == if group_rows(m, fns.group_of, g).dom()
            == Set::<SK>::empty() {
            None
        } else {
            Some(state_for(group_rows(m, fns.group_of, g)))
        } by {
            assert(group_rows(m, fns.group_of, g).dom() =~= Set::<SK>::empty());
        }
    }
}

proof fn groups_hold_step<SK, SV, GK, GS, OV>(
    grouped: Grouped<SK, GK, GS>,
    m: Map<SK, SV>,
    fns: GroupFns<SK, SV, GK, GS, OV>,
    state_for: spec_fn(Map<SK, SV>) -> GS,
    change: Change<SK, SV>,
)
    requires
        decided_by_rows(fns, state_for),
        groups_hold(grouped, m, fns, state_for),
        m.dom().finite(),
        fits(m, change),
    ensures
        groups_hold(grouped.step(fns, change), apply_change(m, change), fns, state_for),
        apply_change(m, change).dom().finite(),
{
    match change {
        Change::Initial { entries } => {
            assert(entries.map_values(|e: (SK, SV)| e.0) =~= entry_keys(entries));
            groups_hold_load(fns, state_for, entries);
        },
        Change::Insert { key, value } => {
            groups_hold_insert(grouped, m, fns, state_for, key, value);
        },
        Change::Remove { key, old_value } => {
            assert(grouped.member.contains_key(key));
            groups_hold_remove(grouped, m, fns, state_for, key);
        },
        Change::Update { key, old_value, new_value } => {
            assert(grouped.member.contains_key(key));
            let a = grouped.old_group(fns, key, old_value);
            let b = (fns.group_of)(key, new_value);
            let m2 = m.insert(key, new_value);
            if a != b {
                assert(m2 =~= m.remove(key).insert(key, new_value));
                groups_hold_remove(grouped, m, fns, state_for, key);
                groups_hold_insert(
                    grouped.left_by(fns, a, key, old_value),
                    m.remove(key),
                    fns,
                    state_for,
                    key,
                    new_value,
                );
            } else {
                let after = grouped.step(fns, change);
                let rows = group_rows(m, fns.group_of, b);
                assert(rows.contains_key(key));
                assert(rows.dom().contains(key));
                held_state(grouped, m, fns, state_for, b);
                group_rows_finite(m, fns.group_of, b);
                assert((fns.updated)(state_for(rows), key, rows[key], new_value) == state_for(
                    rows.insert(key, new_value),
                ));
                assert(group_rows(m2, fns.group_of, b) =~= rows.insert(key, new_value));
                assert(rows.insert(key, new_value).dom().contains(key));
                assert forall|x: GK| #[trigger] lookup(after.groups, x) == if group_rows(
                    m2,
                    fns.group_of,
                    x,
                ).dom() == Set::<SK>::empty() {
                    None
                } else {
                    Some(state_for(group_rows(m2, fns.group_of, x)))
                } by {
                    if x != b {
                        assert(group_rows(m2, fns.group_of, x) =~= group_rows(m, fns.group_of, x));
                        assert(lookup(after.groups, x) == lookup(grouped.groups, x));
                    }
                }
                assert forall|x: SK| #[trigger] after.member.contains_key(x) implies after.member[x]
                    == (fns.group_of)(x, m2[x]) by {
                    assert(grouped.member.contains_key(x));
                }
            }
        },
    }
}

/// A grouping whose states the rows decide follows its source: where changes tell the truth about a
/// map, each group holds the state of the rows that the map has in it, and a group without rows is
/// not there.
pub proof fn groups_follow_rows<SK, SV, GK, GS, OV>(
    grouped: Grouped<SK, GK, GS>,
    m: Map<SK, SV>,
    fns: GroupFns<SK, SV, GK, GS, OV>,
    state_for: spec_fn(Map<SK, SV>) -> GS,
    steps: Seq<Change<SK, SV>>,
)
    requires
        decided_by_rows(fns, state_for),
        groups_hold(grouped, m, fns, state_for),
        m.dom().finite(),
        fits_all(m, steps),
    ensures
        groups_hold(grouped.run(fns, steps), replay(m, steps), fns, state_for),
        replay(m, steps).dom().finite(),
    decreases steps.len(),
{
    if steps.len() > 0 {
        let rest = steps.drop_last();
        groups_follow_rows(grouped, m, fns, state_for, rest);
        groups_hold_step(
            grouped.run(fns, rest),
            replay(m, rest),
            fns,
            state_for,
            steps.last(),
        );
    }
}

/// A grouping runtime whose states the rows decide gives, for each group of its source, what the
/// state of the group's rows materializes to, from the time when it has no rows on; and what it tells
/// leads there.
pub proof fn grouping_gives_rows<
    SK: MapKey,
    SV: CellValue,
    GK: MapKey,
    OV: CellValue,
    O: GroupedOps<SK, SV, GK, OV>,
>(
    before: GroupedRuntime<SK, SV, GK, OV, O>,
    steps: Seq<Change<SK::Model, SV::Model>>,
    after: GroupedRuntime<SK, SV, GK, OV, O>,
    told: Seq<Change<GK::Model, OV::Model>>,
    state_for: spec_fn(Map<SK::Model, SV::Model>) -> <O::State as CellValue>::Model,
)
    requires
        works_all::<SK, SV, GK, OV, GroupedRuntime<SK, SV, GK, OV, O>>(before, steps, after, told),
        before.grouped() == no_groups::<SK::Model, GK::Model, <O::State as CellValue>::Model>(),
        decided_by_rows(before.fns(), state_for),
        fits_all(Map::<SK::Model, SV::Model>::empty(), steps),
    ensures
        fits_all(Map::<GK::Model, OV::Model>::empty(), told),
        replay(Map::<GK::Model, OV::Model>::empty(), told) == after.output(),
        forall|g: GK::Model| #[trigger]
            lookup(after.output(), g) == ({
                let rows = group_rows(replay(Map::empty(), steps), before.fns().group_of, g);
                if rows.dom() == Set::<SK::Model>::empty() {
                    None
                } else {
                    Some((before.fns().materialized)(state_for(rows)))
                }
            }),
{
    let fns = before.fns();
    let none = Map::<SK::Model, SV::Model>::empty();
    grouping_follows_source::<SK, SV, GK, OV, O>(before, steps, after, told);
    assert(before.output() =~= Map::<GK::Model, OV::Model>::empty());
    groups_hold_load(fns, state_for, Seq::empty());
    assert(entries_map(Seq::<(SK::Model, SV::Model)>::empty()) == none);
    groups_follow_rows(before.grouped(), none, fns, state_for, steps);
    assert forall|g: GK::Model| #[trigger] lookup(after.output(), g) == ({
        let rows = group_rows(replay(none, steps), fns.group_of, g);
        if rows.dom() == Set::<SK::Model>::empty() {
            None
        } else {
            Some((fns.materialized)(state_for(rows)))
        }
    }) by {
        let _ = lookup(after.grouped().groups, g);
    }
}

/// What is told of a group: nothing where it was not there and is not; that it comes or goes where it
/// does; and where it was there and stays, always one update from what it was to what it is.
pub proof fn told_of_a_group<K, V>(g: K, before: Map<K, V>, after: Map<K, V>)
    ensures
        !before.contains_key(g) && !after.contains_key(g) ==> told_groups(before, seq![g], after).len()
            == 0,
        !before.contains_key(g) && after.contains_key(g) ==> told_groups(before, seq![g], after)
            == seq![Change::Insert { key: g, value: after[g] }],
        before.contains_key(g) && !after.contains_key(g) ==> told_groups(before, seq![g], after)
            == seq![Change::<K, V>::Remove { key: g, old_value: before[g] }],
        before.contains_key(g) && after.contains_key(g) ==> told_groups(before, seq![g], after)
            == seq![Change::Update { key: g, old_value: before[g], new_value: after[g] }],
{
    let keys = seq![g];
    assert(keys.drop_last() =~= Seq::empty());
    assert(told_groups(before, keys.drop_last(), after) =~= Seq::empty());
    let one = group_change(g, lookup(before, g), lookup(after, g));
    assert(told_groups(before, keys, after) =~= one);
}

/// What is told of groups is what is told of each of them, in turn.
pub proof fn told_of_groups_in_turn<K, V>(before: Map<K, V>, keys: Seq<K>, after: Map<K, V>, i: int)
    requires
        0 <= i < keys.len(),
    ensures
        told_groups(before, keys.take(0), after).len() == 0,
        told_groups(before, keys.take(i + 1), after) == told_groups(before, keys.take(i), after)
            + told_groups(before, seq![keys[i]], after),
        told_groups(before, keys.take(keys.len() as int), after) == told_groups(before, keys, after),
{
    assert(keys.take(i + 1).drop_last() =~= keys.take(i));
    assert(keys.take(i + 1).last() == keys[i]);
    assert(keys.take(keys.len() as int) =~= keys);
    let one = seq![keys[i]];
    assert(one.drop_last() =~= Seq::empty());
    let c = group_change(keys[i], lookup(before, keys[i]), lookup(after, keys[i]));
    assert(told_groups(before, one.drop_last(), after) =~= Seq::empty());
    assert(told_groups(before, one, after) =~= c);
}

/// The groups that a change of the source touches: the one that its row was in and the one that its row
/// comes to, and with a new beginning all that there were and all that its entries come to.
pub proof fn groups_that_a_change_touches<SK, SV, GK, GS, OV>(
    grouped: Grouped<SK, GK, GS>,
    fns: GroupFns<SK, SV, GK, GS, OV>,
    change: Change<SK, SV>,
    g: GK,
)
    ensures
        grouped.touched(fns, change).contains(g) == (match change {
            Change::Initial { entries } => grouped.groups.contains_key(g) || exists|i: int|
                0 <= i < entries.len() && (fns.group_of)(
                    (#[trigger] entries[i]).0,
                    entries[i].1,
                ) == g,
            Change::Insert { key, value } => g == (fns.group_of)(key, value),
            Change::Remove { key, old_value } => g == (if grouped.member.contains_key(key) {
                grouped.member[key]
            } else {
                (fns.group_of)(key, old_value)
            }),
            Change::Update { key, old_value, new_value } => g == (fns.group_of)(key, new_value) || g == (
            if grouped.member.contains_key(key) {
                grouped.member[key]
            } else {
                (fns.group_of)(key, old_value)
            }),
        }),
{
    if let Change::Initial { entries } = change {
        let made = Grouped::<SK, GK, GS>::entry_groups(fns, entries);
        if made.contains(g) {
            let i = choose|i: int| 0 <= i < made.len() && made[i] == g;
            assert((fns.group_of)(entries[i].0, entries[i].1) == g);
        }
        if exists|i: int|
            0 <= i < entries.len() && (fns.group_of)((#[trigger] entries[i]).0, entries[i].1) == g {
            let i = choose|i: int|
                0 <= i < entries.len() && (fns.group_of)((#[trigger] entries[i]).0, entries[i].1) == g;
            assert(made[i] == g);
        }
    }
}

} // verus!
