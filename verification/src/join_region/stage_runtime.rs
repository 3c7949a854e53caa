//! The stages of a join region at work: each stage joins what the one before it gives.
use std::marker::PhantomData;
use vstd::prelude::*;

use crate::delta::{
    commit_change, commit_change_replays, delta, delta_agrees, delta_replays, delta_skips,
    differing, lookup_ext, piped, piped_lookup, put_all, put_all_lookup,
};
use crate::diff::{
    all_leaves, apply_change, atoms, change_key, fits, fits_all, flat, replay, saturated, steps_of,
    steps_of_concat, steps_of_flat, steps_of_push, Change, MapDiff,
};
use crate::foreign_key::{right_key, RightJoinKey};
use crate::func::{image2, pure2, RowFn};
use crate::fx::{lists, lookup, FxSet};
use crate::index::{empty_side, entry_keys, total_key, Side};
use crate::join_region::declaration::{projection, JCons, JNil, StageProject};
use crate::join_runtime::state::{
    join_seq, joined, joined_lookup, observe_joins, observed_joins, observed_step, KeyedJoin,
    RelationIndex,
};
use crate::ordered_set::{
    extend_new, extend_new_contains, kept, kept_contains, push_new, OrderedSet,
};
use crate::value::{models, CellValue, MapKey};

verus! {

/// The keys that a change of a map touches, put behind those of `from`, give `to`. The rows that a
/// new beginning drops come in some order.
pub open spec fn touches<K, V>(
    rows: Map<K, V>,
    change: Change<K, V>,
    from: Seq<K>,
    to: Seq<K>,
) -> bool {
    match change {
        Change::Initial { entries } => exists|dropped: Seq<K>| #[trigger]
            lists(dropped, rows.dom()) && to == extend_new(
                extend_new(from, dropped),
                entry_keys(entries),
            ),
        Change::Insert { key, value } => to == push_new(from, key),
        Change::Remove { key, old_value } => to == if rows.contains_key(key) {
            push_new(from, key)
        } else {
            from
        },
        Change::Update { key, old_value, new_value } => to == push_new(from, key),
    }
}

/// The keys that changes of a map touch, put behind those of `from`, give `to`.
pub open spec fn touches_all<K, V>(
    rows: Map<K, V>,
    steps: Seq<Change<K, V>>,
    from: Seq<K>,
    to: Seq<K>,
) -> bool
    decreases steps.len(),
{
    if steps.len() == 0 {
        to == from
    } else {
        exists|mid: Seq<K>|
            touches_all(rows, steps.drop_last(), from, mid) && #[trigger] touches(
                replay(rows, steps.drop_last()),
                steps.last(),
                mid,
                to,
            )
    }
}

/// The keys that changes touch on a side are those that they touch in the map of its rows.
pub proof fn keys_run_touches<K, V, J>(
    side: Side<K, V, J>,
    steps: Seq<Change<K, V>>,
    jk: spec_fn(K, V) -> Option<J>,
    from: Seq<K>,
    to: Seq<K>,
)
    requires
        forall|k: K, v: V| #[trigger] jk(k, v) is Some,
        side.keys_run(steps, jk, from, to),
    ensures
        touches_all(side.rows, steps, from, to),
    decreases steps.len(),
{
    if steps.len() > 0 {
        let rest = steps.drop_last();
        let mid = choose|mid: Seq<K>|
            side.keys_run(rest, jk, from, mid) && #[trigger] side.run(rest, jk).keys_step(
                steps.last(),
                mid,
                to,
            );
        keys_run_touches(side, rest, jk, from, mid);
        side.run_rows(rest, jk);
        match steps.last() {
            Change::Initial { entries } => {
                let dropped = choose|dropped: Seq<K>| #[trigger]
                    lists(dropped, side.run(rest, jk).rows.dom()) && to == extend_new(
                        extend_new(mid, dropped),
                        entry_keys(entries),
                    );
                assert(lists(dropped, replay(side.rows, rest).dom()));
            },
            _ => {},
        }
        assert(touches(replay(side.rows, rest), steps.last(), mid, to));
    }
}

/// A change of one row that tells the truth, and is one.
pub open spec fn real_change<K, V>(rows: Map<K, V>, change: Change<K, V>, k: K) -> bool {
    &&& change_key(change) == Some(k)
    &&& fits(rows, change)
    &&& match change {
        Change::Update { key, old_value, new_value } => old_value != new_value,
        _ => true,
    }
}

/// The cost of one row through one stage.
pub const STAGE_COST: usize = 24;

/// The estimated cost of taking one row through stages.
pub trait RuntimeStageCost {
    spec fn units(&self) -> nat;

    fn cost_units(&self) -> (cost: usize)
        ensures
            cost == saturated(self.units()),
    ;
}

impl RuntimeStageCost for JNil {
    open spec fn units(&self) -> nat {
        1
    }

    fn cost_units(&self) -> (cost: usize) {
        1
    }
}

impl<Head, Tail: RuntimeStageCost> RuntimeStageCost for JCons<Head, Tail> {
    open spec fn units(&self) -> nat {
        STAGE_COST as nat + self.tail.units()
    }

    fn cost_units(&self) -> (cost: usize) {
        STAGE_COST.saturating_add(self.tail.cost_units())
    }
}

/// The stages that follow one after the other, each on what the one before it gives.
///
/// The functions of the stages stand apart from their rows. The right rows of a stage are held once,
/// and the left rows and kept outputs of all stages once for each shard.
pub trait RuntimeStages<K: MapKey, Input: CellValue>: RuntimeStageCost + Sized + Send + Sync {
    type Output: CellValue;

    /// The right rows of each stage.
    type Rights: Send + Sync;

    /// The left rows and the kept output of each stage.
    type Shard: Send;

    /// The functions can be called.
    spec fn lawful(&self) -> bool;

    /// The right rows are well formed.
    spec fn rights_wf(&self, rights: Self::Rights) -> bool;

    /// No stage has right rows.
    spec fn bare(&self, rights: Self::Rights) -> bool;

    /// Each stage has the same right rows in both.
    spec fn same_rights(&self, a: Self::Rights, b: Self::Rights) -> bool;

    /// What the stages make of one row.
    spec fn through(&self, rights: Self::Rights, key: K::Model, input: Input::Model) -> Option<
        <Self::Output as CellValue>::Model,
    >;

    proof fn same_itself(&self, rights: Self::Rights)
        ensures
            self.same_rights(rights, rights),
    ;

    /// The same right rows make the same of a row.
    proof fn same_through(
        &self,
        a: Self::Rights,
        b: Self::Rights,
        key: K::Model,
        input: Input::Model,
    )
        requires
            self.same_rights(a, b),
        ensures
            self.through(a, key, input) == self.through(b, key, input),
    ;

    /// The rows that go into the first stage.
    spec fn rows(&self, shard: Self::Shard) -> Map<K::Model, Input::Model>;

    /// The rows that come out of the last stage.
    spec fn output(&self, shard: Self::Shard) -> Map<K::Model, <Self::Output as CellValue>::Model>;

    /// Each stage keeps what it makes of what the one before it gives.
    spec fn sound(&self, rights: Self::Rights, shard: Self::Shard) -> bool;

    /// The rows that come out are what the stages make of the rows that go in.
    proof fn sound_output(&self, rights: Self::Rights, shard: Self::Shard)
        requires
            self.sound(rights, shard),
        ensures
            self.output(shard) == piped(
                self.rows(shard),
                |k: K::Model, v: Input::Model| self.through(rights, k, v),
            ),
    ;

    /// Each stage keeps, for each row that it gets, what it makes of it with the right rows as they
    /// were at some point of a chain.
    spec fn settles(&self, chain: Seq<Self::Rights>, shard: Self::Shard) -> bool;

    /// A stage, counted from the first, keeps what it makes of what it gets with these right rows.
    spec fn level(&self, place: nat, rights: Self::Rights, shard: Self::Shard) -> bool;

    /// The right rows of a stage, counted from the first, are the same all along a chain.
    spec fn steady(&self, place: nat, chain: Seq<Self::Rights>) -> bool;

    proof fn sound_settles(&self, rights: Self::Rights, shard: Self::Shard)
        requires
            self.sound(rights, shard),
        ensures
            self.settles(seq![rights], shard),
            forall|place: nat| #[trigger] self.level(place, rights, shard),
    ;

    /// Where each stage whose right rows have changed keeps what it makes of what it gets with the
    /// last of them, all stages do.
    proof fn settled(&self, chain: Seq<Self::Rights>, shard: Self::Shard)
        requires
            chain.len() > 0,
            self.settles(chain, shard),
            forall|place: nat| #[trigger]
                self.level(place, chain.last(), shard) || self.steady(place, chain),
        ensures
            self.sound(chain.last(), shard),
    ;

    proof fn settles_longer(
        &self,
        chain: Seq<Self::Rights>,
        rights: Self::Rights,
        shard: Self::Shard,
    )
        requires
            self.settles(chain, shard),
        ensures
            self.settles(chain.push(rights), shard),
    ;

    proof fn steady_alone(&self, place: nat, rights: Self::Rights)
        ensures
            self.steady(place, seq![rights]),
    ;

    proof fn steady_again(&self, place: nat, chain: Seq<Self::Rights>)
        requires
            chain.len() > 0,
            self.steady(place, chain),
        ensures
            self.steady(place, chain.push(chain.last())),
    ;

    /// No row comes out without one that goes in.
    proof fn settles_within(&self, chain: Seq<Self::Rights>, shard: Self::Shard)
        requires
            self.settles(chain, shard),
        ensures
            forall|k: K::Model| #[trigger]
                self.output(shard).contains_key(k) ==> self.rows(shard).contains_key(k),
    ;

    /// The right rows of stages that have none.
    fn new_rights(&self) -> (rights: Self::Rights)
        ensures
            self.rights_wf(rights),
            self.bare(rights),
    ;

    /// A shard without rows.
    fn empty_shard(&self, rights: &Self::Rights) -> (shard: Self::Shard)
        requires
            self.lawful(),
            self.rights_wf(*rights),
        ensures
            self.sound(*rights, shard),
            self.rows(shard) == Map::<K::Model, Input::Model>::empty(),
    ;

    /// Takes a change of one row through the stages.
    fn apply_told(
        &self,
        rights: &Self::Rights,
        shard: &mut Self::Shard,
        change: &MapDiff<K, Input>,
        Ghost(chain): Ghost<Seq<Self::Rights>>,
        Ghost(k): Ghost<K::Model>,
    ) -> (changes: Vec<MapDiff<K, Self::Output>>)
        requires
            self.lawful(),
            self.rights_wf(*rights),
            chain.len() > 0,
            chain.last() == *rights,
            self.settles(chain, *old(shard)),
            !(change is Batch),
            real_change(self.rows(*old(shard)), change.atom(), k),
        ensures
            self.settles(chain, *final(shard)),
            forall|place: nat|
                self.level(place, *rights, *old(shard)) ==> #[trigger] self.level(
                    place,
                    *rights,
                    *final(shard),
                ),
            self.rows(*final(shard)) == apply_change(self.rows(*old(shard)), change.atom()),
            flat(changes@),
            steps_of(changes@) == commit_change(
                k,
                lookup(self.output(*old(shard)), k),
                lookup(self.output(*final(shard)), k),
            ),
            forall|x: K::Model|
                x != k ==> #[trigger] lookup(self.output(*final(shard)), x) == lookup(
                    self.output(*old(shard)),
                    x,
                ),
    ;
}

/// What follows the last stage: the rows as they are.
#[verifier::reject_recursive_types(K)]
#[verifier::reject_recursive_types(V)]
pub struct EndShard<K: CellValue, V: CellValue> {
    rows: Ghost<Map<K::Model, V::Model>>,
}

impl<K: MapKey, Input: CellValue> RuntimeStages<K, Input> for JNil {
    type Output = Input;

    type Rights = ();

    type Shard = EndShard<K, Input>;

    open spec fn lawful(&self) -> bool {
        true
    }

    open spec fn rights_wf(&self, rights: ()) -> bool {
        true
    }

    open spec fn bare(&self, rights: ()) -> bool {
        true
    }

    open spec fn same_rights(&self, a: (), b: ()) -> bool {
        true
    }

    proof fn same_itself(&self, rights: ()) {
    }

    proof fn same_through(&self, a: (), b: (), key: K::Model, input: Input::Model) {
    }

    open spec fn through(&self, rights: (), key: K::Model, input: Input::Model) -> Option<Input::Model> {
        Some(input)
    }

    closed spec fn rows(&self, shard: EndShard<K, Input>) -> Map<K::Model, Input::Model> {
        shard.rows@
    }

    closed spec fn output(&self, shard: EndShard<K, Input>) -> Map<K::Model, Input::Model> {
        shard.rows@
    }

    open spec fn sound(&self, rights: (), shard: EndShard<K, Input>) -> bool {
        true
    }

    proof fn sound_output(&self, rights: (), shard: EndShard<K, Input>) {
        assert(shard.rows@ =~= piped(
            shard.rows@,
            |k: K::Model, v: Input::Model|
                <JNil as RuntimeStages<K, Input>>::through(self, rights, k, v),
        ));
    }

    open spec fn settles(&self, chain: Seq<()>, shard: EndShard<K, Input>) -> bool {
        true
    }

    open spec fn level(&self, place: nat, rights: (), shard: EndShard<K, Input>) -> bool {
        true
    }

    open spec fn steady(&self, place: nat, chain: Seq<()>) -> bool {
        true
    }

    proof fn sound_settles(&self, rights: (), shard: EndShard<K, Input>) {
    }

    proof fn settled(&self, chain: Seq<()>, shard: EndShard<K, Input>) {
    }

    proof fn settles_longer(&self, chain: Seq<()>, rights: (), shard: EndShard<K, Input>) {
    }

    proof fn steady_alone(&self, place: nat, rights: ()) {
    }

    proof fn steady_again(&self, place: nat, chain: Seq<()>) {
    }

    proof fn settles_within(&self, chain: Seq<()>, shard: EndShard<K, Input>) {
    }

    fn new_rights(&self) -> (rights: ()) {
        ()
    }

    fn empty_shard(&self, rights: &()) -> (shard: EndShard<K, Input>) {
        EndShard { rows: Ghost(Map::empty()) }
    }

    fn apply_told(
        &self,
        rights: &(),
        shard: &mut EndShard<K, Input>,
        change: &MapDiff<K, Input>,
        Ghost(chain): Ghost<Seq<()>>,
        Ghost(k): Ghost<K::Model>,
    ) -> (changes: Vec<MapDiff<K, Input>>) {
        let ghost before = shard.rows@;
        shard.rows = Ghost(apply_change(before, change.atom()));
        let mut changes: Vec<MapDiff<K, Input>> = Vec::new();
        let copy = change.clone_diff();
        proof {
            steps_of_push(changes@, copy);
            assert(steps_of(changes@) =~= Seq::empty());
            assert(Seq::empty().push(copy.atom()) =~= commit_change(
                k,
                lookup(before, k),
                lookup(shard.rows@, k),
            ));
        }
        changes.push(copy);
        changes
    }
}

/// The functions of one stage.
pub struct StageConfig<K, Input, RK, RV, JK, Output, FL, FR, P> {
    pub left_key: FL,
    pub right_key: FR,
    pub project: P,
    pub types: PhantomData<(K, Input, RK, RV, JK, Output)>,
}

/// The left rows and the kept output of a stage, and those of the stages after it.
#[verifier::reject_recursive_types(K)]
#[verifier::reject_recursive_types(Input)]
#[verifier::reject_recursive_types(JK)]
#[verifier::reject_recursive_types(Output)]
pub struct StageShard<K: MapKey, Input: CellValue, JK: MapKey, Output: CellValue, Tail> {
    pub head: KeyedJoin<K, Input, JK, Output>,
    pub tail: Tail,
}

/// The right rows of a stage, and those of the stages after it.
#[verifier::reject_recursive_types(RK)]
#[verifier::reject_recursive_types(RV)]
#[verifier::reject_recursive_types(JK)]
pub struct StageRights<RK: MapKey, RV: CellValue, JK: MapKey, Tail> {
    pub head: RelationIndex<RK, RV, JK>,
    pub tail: Tail,
}

/// The changes that a join tells, one for each touched key whose output changes, in order.
pub proof fn delta_shape<K, V>(m: Map<K, V>, keys: Seq<K>, want: Map<K, V>)
    requires
        keys.no_duplicates(),
    ensures
        ({
            let moved = kept(keys, differing(m, want));
            &&& delta(m, keys, want).len() == moved.len()
            &&& moved.no_duplicates()
            &&& forall|i: int|
                0 <= i < moved.len() ==> seq![#[trigger] delta(m, keys, want)[i]] == commit_change(
                    moved[i],
                    lookup(m, moved[i]),
                    lookup(want, moved[i]),
                ) && lookup(m, moved[i]) != lookup(want, moved[i])
        }),
    decreases keys.len(),
{
    let diff = differing(m, want);
    kept_contains(keys, diff);
    if keys.len() > 0 {
        let rest = keys.drop_last();
        let last = keys.last();
        delta_shape(m, rest, want);
        put_all_lookup(m, rest, want);
        assert(!rest.contains(last));
        assert(lookup(put_all(m, rest, want), last) == lookup(m, last));
        let c = commit_change(last, lookup(m, last), lookup(want, last));
        assert(delta(m, keys, want) == delta(m, rest, want) + c);
        let moved = kept(keys, diff);
        if diff.contains(last) {
            assert(c.len() == 1);
            assert forall|i: int| 0 <= i < moved.len() implies seq![
                #[trigger] delta(m, keys, want)[i],
            ] == commit_change(moved[i], lookup(m, moved[i]), lookup(want, moved[i])) && lookup(
                m,
                moved[i],
            ) != lookup(want, moved[i]) by {
                if i < moved.len() - 1 {
                    assert(delta(m, keys, want)[i] == delta(m, rest, want)[i]);
                    assert(moved[i] == kept(rest, diff)[i]);
                } else {
                    assert(delta(m, keys, want)[i] == c[0]);
                    assert(c =~= seq![c[0]]);
                }
            }
        } else {
            assert(delta(m, keys, want) =~= delta(m, rest, want));
        }
    }
}

/// The first changes that a join tells are those of the first keys whose output changes.
pub proof fn delta_prefix<K, V>(m: Map<K, V>, keys: Seq<K>, want: Map<K, V>, n: int)
    requires
        keys.no_duplicates(),
        0 <= n <= kept(keys, differing(m, want)).len(),
    ensures
        delta(m, keys, want).take(n) == delta(m, kept(keys, differing(m, want)).take(n), want),
        delta(m, keys, want).len() == kept(keys, differing(m, want)).len(),
    decreases n,
{
    let moved = kept(keys, differing(m, want));
    delta_shape(m, keys, want);
    let d = delta(m, keys, want);
    if n > 0 {
        delta_prefix(m, keys, want, n - 1);
        let part = moved.take(n);
        assert(part.drop_last() =~= moved.take(n - 1));
        let k = part.last();
        assert(k == moved[n - 1]);
        put_all_lookup(m, moved.take(n - 1), want);
        assert(!moved.take(n - 1).contains(k));
        assert(seq![d[n - 1]] == commit_change(k, lookup(m, k), lookup(want, k)));
        assert(d.take(n) =~= d.take(n - 1) + seq![d[n - 1]]);
    } else {
        assert(d.take(0) =~= delta(m, moved.take(0), want));
    }
}

impl<
    K: MapKey,
    Input: CellValue,
    RK: MapKey,
    RV: CellValue,
    JK: MapKey,
    Mid: CellValue,
    FL: RowFn<K, Input, JK>,
    FR: RightJoinKey<RK, RV, JK>,
    P: StageProject<K, Input, RK, RV, Mid>,
    Tail: RuntimeStages<K, Mid>,
> JCons<StageConfig<K, Input, RK, RV, JK, Mid, FL, FR, P>, Tail> {
    /// The join key function of the left rows of the first stage.
    pub open spec fn lkey(&self) -> spec_fn(K::Model, Input::Model) -> Option<JK::Model> {
        total_key::<K, Input, JK, FL>(self.head.left_key)
    }

    /// The join key function of the right rows of the first stage.
    pub open spec fn rkey(&self) -> spec_fn(RK::Model, RV::Model) -> Option<JK::Model> {
        right_key::<RK, RV, JK, FR>(self.head.right_key)
    }

    /// The projection of the first stage.
    pub open spec fn proj(&self) -> spec_fn(
        K::Model,
        Input::Model,
        Seq<(RK::Model, RV::Model)>,
    ) -> Option<Mid::Model> {
        projection::<K, Input, RK, RV, Mid, P>(self.head.project)
    }

    /// What the first stage tells, handed through the other stages.
    proof fn threaded(
        m: Map<K::Model, Mid::Model>,
        keys: Seq<K::Model>,
        want: Map<K::Model, Mid::Model>,
        n: int,
    )
        requires
            keys.no_duplicates(),
            put_all(m, keys, want) == want,
            0 <= n < kept(keys, differing(m, want)).len(),
        ensures
            ({
                let moved = kept(keys, differing(m, want));
                let d = delta(m, keys, want);
                let mid = replay(m, d.take(n));
                let next = replay(m, d.take(n + 1));
                &&& n < d.len()
                &&& real_change(mid, d[n], moved[n])
                &&& next == apply_change(mid, d[n])
            }),
    {
        let moved = kept(keys, differing(m, want));
        let d = delta(m, keys, want);
        let k = moved[n];
        delta_shape(m, keys, want);
        delta_prefix(m, keys, want, n);
        delta_prefix(m, keys, want, n + 1);
        delta_replays(m, moved.take(n), want);
        put_all_lookup(m, moved.take(n), want);
        assert(!moved.take(n).contains(k));
        let mid = replay(m, d.take(n));
        assert(lookup(mid, k) == lookup(m, k));
        assert(d.take(n + 1).drop_last() =~= d.take(n));
        assert(seq![d[n]] == commit_change(k, lookup(m, k), lookup(want, k)));
        assert(seq![d[n]][0] == d[n]);
        commit_change_replays(mid, k, lookup(want, k));
        assert(fits(mid, d[n]));
    }

    /// Hands what the first stage has told through the other stages, one change after the other.
    fn thread(
        &self,
        rights: &Tail::Rights,
        shard: &mut Tail::Shard,
        head_changes: &Vec<MapDiff<K, Mid>>,
        Ghost(chain): Ghost<Seq<Tail::Rights>>,
        Ghost(m): Ghost<Map<K::Model, Mid::Model>>,
        Ghost(keys): Ghost<Seq<K::Model>>,
        Ghost(want): Ghost<Map<K::Model, Mid::Model>>,
    ) -> (changes: Vec<MapDiff<K, Tail::Output>>)
        requires
            self.tail.lawful(),
            self.tail.rights_wf(*rights),
            chain.len() > 0,
            chain.last() == *rights,
            self.tail.settles(chain, *old(shard)),
            self.tail.rows(*old(shard)) == m,
            keys.no_duplicates(),
            put_all(m, keys, want) == want,
            flat(head_changes@),
            steps_of(head_changes@) == delta(m, keys, want),
        ensures
            self.tail.settles(chain, *final(shard)),
            forall|place: nat|
                self.tail.level(place, *rights, *old(shard)) ==> #[trigger] self.tail.level(
                    place,
                    *rights,
                    *final(shard),
                ),
            self.tail.rows(*final(shard)) == want,
            flat(changes@),
            steps_of(changes@) == delta(
                self.tail.output(*old(shard)),
                keys,
                self.tail.output(*final(shard)),
            ),
            put_all(self.tail.output(*old(shard)), keys, self.tail.output(*final(shard)))
                == self.tail.output(*final(shard)),
    {
        let ghost d = delta(m, keys, want);
        let ghost moved = kept(keys, differing(m, want));
        let ghost out = self.tail.output(*shard);
        let mut changes: Vec<MapDiff<K, Tail::Output>> = Vec::new();
        let mut i: usize = 0;
        proof {
            steps_of_flat(head_changes@);
            delta_shape(m, keys, want);
            assert(d.take(0) =~= Seq::empty());
            assert(moved.take(0) =~= Seq::empty());
        }
        while i < head_changes.len()
            invariant
                i <= head_changes@.len(),
                flat(head_changes@),
                d == delta(m, keys, want),
                moved == kept(keys, differing(m, want)),
                d.len() == moved.len(),
                d.len() == head_changes@.len(),
                moved.no_duplicates(),
                out == self.tail.output(*old(shard)),
                keys.no_duplicates(),
                put_all(m, keys, want) == want,
                forall|n: int| 0 <= n < head_changes@.len() ==> #[trigger] d[n] == head_changes@[n].atom(),
                self.tail.lawful(),
                self.tail.rights_wf(*rights),
                chain.len() > 0,
                chain.last() == *rights,
                self.tail.settles(chain, *shard),
                forall|place: nat|
                    self.tail.level(place, *rights, *old(shard)) ==> #[trigger] self.tail.level(
                        place,
                        *rights,
                        *shard,
                    ),
                self.tail.rows(*shard) == replay(m, d.take(i as int)),
                forall|x: K::Model|
                    !moved.take(i as int).contains(x) ==> #[trigger] lookup(
                        self.tail.output(*shard),
                        x,
                    ) == lookup(out, x),
                flat(changes@),
                steps_of(changes@) == delta(out, moved.take(i as int), self.tail.output(*shard)),
            decreases head_changes@.len() - i,
        {
            let ghost k = moved[i as int];
            let ghost sofar = changes@;
            let ghost out1 = self.tail.output(*shard);
            proof {
                Self::threaded(m, keys, want, i as int);
                assert(!(head_changes@[i as int] is Batch));
            }
            let mut more = self.tail.apply_told(
                rights,
                shard,
                &head_changes[i],
                Ghost(chain),
                Ghost(k),
            );
            proof {
                let out2 = self.tail.output(*shard);
                let part = moved.take(i as int);
                let next = moved.take(i + 1);
                assert(next.drop_last() =~= part);
                assert(next.last() == k);
                assert(!part.contains(k));
                assert forall|x: K::Model| #[trigger] part.contains(x) implies lookup(out1, x)
                    == lookup(out2, x) by {
                    assert(x != k);
                }
                delta_agrees(out, part, out1, out2);
                put_all_lookup(out, part, out2);
                assert forall|x: K::Model| !next.contains(x) implies #[trigger] lookup(out2, x)
                    == lookup(out, x) by {
                    assert(next[i as int] == k);
                    if part.contains(x) {
                        let n = choose|n: int| 0 <= n < part.len() && part[n] == x;
                        assert(next[n] == x);
                    }
                    assert(lookup(out1, x) == lookup(out, x));
                }
                assert(steps_of(more@) == commit_change(k, lookup(out, k), lookup(out2, k)));
                steps_of_concat(sofar, more@);
                assert(flat(sofar + more@)) by {
                    assert forall|n: int| 0 <= n < (sofar + more@).len() implies !((
                    #[trigger] (sofar + more@)[n]) is Batch) by {
                        if n < sofar.len() {
                            assert(!(sofar[n] is Batch));
                        } else {
                            assert(!(more@[n - sofar.len()] is Batch));
                        }
                    }
                }
            }
            changes.append(&mut more);
            i += 1;
        }
        proof {
            let out2 = self.tail.output(*shard);
            assert(d.take(i as int) =~= d);
            assert(moved.take(i as int) =~= moved);
            delta_replays(m, keys, want);
            kept_contains(keys, differing(m, want));
            assert forall|k: K::Model|
                keys.contains(k) && !differing(m, want).contains(k) implies #[trigger] lookup(out, k)
                == lookup(out2, k) by {
                assert(!moved.contains(k));
            }
            delta_skips(out, keys, out2, differing(m, want));
            assert forall|k: K::Model| !keys.contains(k) implies #[trigger] lookup(out, k) == lookup(
                out2,
                k,
            ) by {
                assert(!moved.contains(k));
            }
            crate::delta::put_all_covers(out, keys, out2);
        }
        changes
    }
}

/// The right rows of the stages after the first, along a chain.
pub open spec fn tails<RK: MapKey, RV: CellValue, JK: MapKey, T>(
    chain: Seq<StageRights<RK, RV, JK, T>>,
) -> Seq<T> {
    chain.map_values(|r: StageRights<RK, RV, JK, T>| r.tail)
}

impl<
    K: MapKey,
    Input: CellValue,
    RK: MapKey,
    RV: CellValue,
    JK: MapKey,
    Mid: CellValue,
    FL: RowFn<K, Input, JK>,
    FR: RightJoinKey<RK, RV, JK>,
    P: StageProject<K, Input, RK, RV, Mid>,
    Tail: RuntimeStages<K, Mid>,
> RuntimeStages<K, Input> for JCons<StageConfig<K, Input, RK, RV, JK, Mid, FL, FR, P>, Tail> {
    type Output = Tail::Output;

    type Rights = StageRights<RK, RV, JK, Tail::Rights>;

    type Shard = StageShard<K, Input, JK, Mid, Tail::Shard>;

    open spec fn lawful(&self) -> bool {
        &&& pure2::<K, Input, JK, FL>(self.head.left_key)
        &&& self.head.right_key.lawful()
        &&& self.head.project.lawful()
        &&& self.tail.lawful()
    }

    open spec fn rights_wf(&self, rights: Self::Rights) -> bool {
        rights.head.wf() && self.tail.rights_wf(rights.tail)
    }

    open spec fn bare(&self, rights: Self::Rights) -> bool {
        rights.head@ == empty_side::<RK::Model, RV::Model, JK::Model>() && self.tail.bare(rights.tail)
    }

    open spec fn same_rights(&self, a: Self::Rights, b: Self::Rights) -> bool {
        a.head@ == b.head@ && self.tail.same_rights(a.tail, b.tail)
    }

    proof fn same_itself(&self, rights: Self::Rights) {
        self.tail.same_itself(rights.tail);
    }

    proof fn same_through(
        &self,
        a: Self::Rights,
        b: Self::Rights,
        key: K::Model,
        input: Input::Model,
    ) {
        match self.head.project.projected(
            key,
            input,
            a.head@.matches_of(image2::<K, Input, JK, FL>(self.head.left_key, key, input)),
        ) {
            Some(mid) => {
                self.tail.same_through(a.tail, b.tail, key, mid);
            },
            None => {},
        }
    }

    open spec fn through(&self, rights: Self::Rights, key: K::Model, input: Input::Model) -> Option<
        <Tail::Output as CellValue>::Model,
    > {
        match self.head.project.projected(
            key,
            input,
            rights.head@.matches_of(image2::<K, Input, JK, FL>(self.head.left_key, key, input)),
        ) {
            Some(mid) => self.tail.through(rights.tail, key, mid),
            None => None,
        }
    }

    open spec fn rows(&self, shard: Self::Shard) -> Map<K::Model, Input::Model> {
        shard.head.left().rows
    }

    open spec fn output(&self, shard: Self::Shard) -> Map<
        K::Model,
        <Tail::Output as CellValue>::Model,
    > {
        self.tail.output(shard.tail)
    }

    open spec fn sound(&self, rights: Self::Rights, shard: Self::Shard) -> bool {
        &&& shard.head.joins(rights.head@, self.proj())
        &&& shard.head.left().keyed_by(self.lkey())
        &&& self.tail.rows(shard.tail) == shard.head.output()
        &&& self.tail.sound(rights.tail, shard.tail)
    }

    proof fn sound_output(&self, rights: Self::Rights, shard: Self::Shard) {
        self.tail.sound_output(rights.tail, shard.tail);
        let f = |k: K::Model, v: Input::Model| self.through(rights, k, v);
        let g = |k: K::Model, v: Mid::Model| self.tail.through(rights.tail, k, v);
        let rows = self.rows(shard);
        assert forall|k: K::Model| #[trigger] lookup(self.output(shard), k) == lookup(piped(rows, f), k) by {
            piped_lookup(rows, f, k);
            piped_lookup(shard.head.output(), g, k);
            joined_lookup(shard.head.left(), rights.head@, self.proj(), k);
            if rows.contains_key(k) {
                assert((self.lkey())(k, rows[k]) == Some(shard.head.left().keys[k]));
            }
        }
        lookup_ext(self.output(shard), piped(rows, f));
    }

    open spec fn settles(&self, chain: Seq<Self::Rights>, shard: Self::Shard) -> bool {
        &&& shard.head.left().wf()
        &&& shard.head.left().keyed_by(self.lkey())
        &&& forall|k: K::Model| #[trigger]
            from_chain(chain, shard.head.left(), self.proj(), shard.head.output(), k)
        &&& self.tail.rows(shard.tail) == shard.head.output()
        &&& self.tail.settles(tails(chain), shard.tail)
    }

    open spec fn level(&self, place: nat, rights: Self::Rights, shard: Self::Shard) -> bool {
        if place == 0 {
            shard.head.output() == joined(shard.head.left(), rights.head@, self.proj())
        } else {
            self.tail.level((place - 1) as nat, rights.tail, shard.tail)
        }
    }

    open spec fn steady(&self, place: nat, chain: Seq<Self::Rights>) -> bool {
        if place == 0 {
            forall|i: int| 0 <= i < chain.len() ==> (#[trigger] chain[i]).head@ == chain.last().head@
        } else {
            self.tail.steady((place - 1) as nat, tails(chain))
        }
    }

    proof fn sound_settles(&self, rights: Self::Rights, shard: Self::Shard) {
        let chain = seq![rights];
        let left = shard.head.left();
        self.tail.sound_settles(rights.tail, shard.tail);
        assert(tails(chain) =~= seq![rights.tail]);
        assert forall|k: K::Model| #[trigger]
            from_chain(chain, left, self.proj(), shard.head.output(), k) by {
            assert(held_from(chain, left, self.proj(), shard.head.output(), k, 0));
        }
        assert forall|place: nat| #[trigger] self.level(place, rights, shard) by {
            if place > 0 {
                assert(self.tail.level((place - 1) as nat, rights.tail, shard.tail));
            }
        }
    }

    proof fn settled(&self, chain: Seq<Self::Rights>, shard: Self::Shard) {
        let left = shard.head.left();
        let rights = chain.last();
        let are = joined(left, rights.head@, self.proj());
        let rest = tails(chain);
        assert(rest.last() == rights.tail);
        assert(self.level(0, rights, shard) || self.steady(0, chain));
        if !self.level(0, rights, shard) {
            assert forall|k: K::Model| #[trigger] lookup(shard.head.output(), k) == lookup(are, k) by {
                assert(from_chain(chain, left, self.proj(), shard.head.output(), k));
                let i = choose|i: int| #[trigger]
                    held_from(chain, left, self.proj(), shard.head.output(), k, i);
                assert(chain[i].head@ == rights.head@);
            }
            lookup_ext(shard.head.output(), are);
        }
        assert forall|place: nat| #[trigger]
            self.tail.level(place, rest.last(), shard.tail) || self.tail.steady(place, rest) by {
            assert(self.level((place + 1) as nat, rights, shard) || self.steady(
                (place + 1) as nat,
                chain,
            ));
        }
        self.tail.settled(rest, shard.tail);
    }

    proof fn settles_longer(
        &self,
        chain: Seq<Self::Rights>,
        rights: Self::Rights,
        shard: Self::Shard,
    ) {
        let left = shard.head.left();
        let longer = chain.push(rights);
        self.tail.settles_longer(tails(chain), rights.tail, shard.tail);
        assert(tails(longer) =~= tails(chain).push(rights.tail));
        assert forall|k: K::Model| #[trigger]
            from_chain(longer, left, self.proj(), shard.head.output(), k) by {
            assert(from_chain(chain, left, self.proj(), shard.head.output(), k));
            let i = choose|i: int| #[trigger]
                held_from(chain, left, self.proj(), shard.head.output(), k, i);
            assert(held_from(longer, left, self.proj(), shard.head.output(), k, i));
        }
    }

    proof fn steady_alone(&self, place: nat, rights: Self::Rights) {
        assert(tails(seq![rights]) =~= seq![rights.tail]);
        if place > 0 {
            self.tail.steady_alone((place - 1) as nat, rights.tail);
        }
    }

    proof fn steady_again(&self, place: nat, chain: Seq<Self::Rights>) {
        let longer = chain.push(chain.last());
        if place == 0 {
            assert forall|i: int| 0 <= i < longer.len() implies (#[trigger] longer[i]).head@
                == longer.last().head@ by {
                if i < chain.len() {
                    assert(longer[i] == chain[i]);
                }
            }
        } else {
            self.tail.steady_again((place - 1) as nat, tails(chain));
            assert(tails(longer) =~= tails(chain).push(tails(chain).last()));
        }
    }

    proof fn settles_within(&self, chain: Seq<Self::Rights>, shard: Self::Shard) {
        let left = shard.head.left();
        self.tail.settles_within(tails(chain), shard.tail);
        assert forall|k: K::Model| #[trigger] self.output(shard).contains_key(k) implies self.rows(
            shard,
        ).contains_key(k) by {
            assert(self.tail.output(shard.tail).contains_key(k));
            assert(from_chain(chain, left, self.proj(), shard.head.output(), k));
            let i = choose|i: int| #[trigger]
                held_from(chain, left, self.proj(), shard.head.output(), k, i);
            joined_lookup(left, chain[i].head@, self.proj(), k);
        }
    }

    fn new_rights(&self) -> (rights: Self::Rights) {
        StageRights { head: RelationIndex::new(), tail: self.tail.new_rights() }
    }

    fn empty_shard(&self, rights: &Self::Rights) -> (shard: Self::Shard) {
        let shard = StageShard { head: KeyedJoin::new(), tail: self.tail.empty_shard(&rights.tail) };
        proof {
            assert(shard.head.output() =~= joined(shard.head.left(), rights.head@, self.proj()));
        }
        shard
    }

    fn apply_told(
        &self,
        rights: &Self::Rights,
        shard: &mut Self::Shard,
        change: &MapDiff<K, Input>,
        Ghost(chain): Ghost<Seq<Self::Rights>>,
        Ghost(k): Ghost<K::Model>,
    ) -> (changes: Vec<MapDiff<K, Tail::Output>>) {
        let ghost side = shard.head.left();
        let ghost m = shard.head.output();
        let ghost steps = change.steps();
        let ghost out = self.tail.output(shard.tail);
        let ghost rest = tails(chain);
        let head_changes = shard.head.apply_left(
            &rights.head,
            change,
            &self.head.left_key,
            &self.head.project,
            None,
        );
        let ghost want = shard.head.output();
        let ghost left = shard.head.left();
        let ghost are = joined(left, rights.head@, self.proj());
        let ghost keys = choose|keys: Seq<K::Model>|
            #![trigger delta(m, keys, want)]
            side.keys_run(steps, self.lkey(), Seq::empty(), keys) && steps_of(head_changes@) == delta(
                m,
                keys,
                want,
            ) && want == put_all(m, keys, are);
        proof {
            side.run_effect(steps, self.lkey());
            side.run_rows(steps, self.lkey());
            side.keys_run_effect(steps, self.lkey(), Seq::empty(), keys);
            assert(steps.drop_last() =~= Seq::empty());
            assert(replay(side.rows, steps) == apply_change(
                replay(side.rows, steps.drop_last()),
                steps.last(),
            ));
            let mid = choose|mid: Seq<K::Model>|
                side.keys_run(steps.drop_last(), self.lkey(), Seq::empty(), mid) && #[trigger] side.run(
                    steps.drop_last(),
                    self.lkey(),
                ).keys_step(steps.last(), mid, keys);
            assert(mid == Seq::<K::Model>::empty());
            assert(!Seq::<K::Model>::empty().contains(k));
            assert(keys =~= seq![k]);
            assert(keys[0] == k);
            put_all_lookup(m, keys, are);
            put_all_lookup(m, keys, want);
            crate::delta::put_all_covers(m, keys, want);
            assert forall|x: K::Model| #[trigger] from_chain(chain, left, self.proj(), want, x) by {
                if x == k {
                    assert(keys.contains(x));
                    assert(held_from(chain, left, self.proj(), want, x, chain.len() - 1));
                } else {
                    assert(!keys.contains(x));
                    assert(from_chain(chain, side, self.proj(), m, x));
                    let i = choose|i: int| #[trigger] held_from(chain, side, self.proj(), m, x, i);
                    joined_lookup(side, chain[i].head@, self.proj(), x);
                    joined_lookup(left, chain[i].head@, self.proj(), x);
                    assert(left.same_at(side, x));
                    if side.rows.contains_key(x) {
                        assert(side.keys.contains_key(x));
                    }
                    assert(lookup(side.rows, x) == lookup(left.rows, x));
                    assert(held_from(chain, left, self.proj(), want, x, i));
                }
            }
            assert(rest.last() == rights.tail);
        }
        let changes = self.thread(
            &rights.tail,
            &mut shard.tail,
            &head_changes,
            Ghost(rest),
            Ghost(m),
            Ghost(keys),
            Ghost(want),
        );
        proof {
            let out2 = self.tail.output(shard.tail);
            let ks = seq![k];
            assert(ks.drop_last() =~= Seq::empty());
            assert(ks.last() == k);
            assert(delta(out, ks, out2) == delta(out, ks.drop_last(), out2) + commit_change(
                ks.last(),
                lookup(put_all(out, ks.drop_last(), out2), ks.last()),
                lookup(out2, ks.last()),
            ));
            assert(delta(out, ks.drop_last(), out2) =~= Seq::empty());
            assert(delta(out, ks, out2) =~= commit_change(k, lookup(out, k), lookup(out2, k)));
            put_all_lookup(out, ks, out2);
            assert forall|x: K::Model| x != k implies #[trigger] lookup(out2, x) == lookup(out, x) by {
                assert(!ks.contains(x));
            }
            assert forall|place: nat|
                self.level(place, *rights, *old(shard)) implies #[trigger] self.level(
                place,
                *rights,
                *shard,
            ) by {
                if place > 0 {
                    let before = (*old(shard)).tail;
                    assert(self.tail.level((place - 1) as nat, rights.tail, before));
                    assert(self.tail.level((place - 1) as nat, rights.tail, shard.tail));
                }
            }
        }
        changes
    }
}

/// What is held for a row is what a stage makes of it with the right rows at a point of a chain.
pub open spec fn held_from<K, V, RK: MapKey, RV: CellValue, JK: MapKey, T, O>(
    chain: Seq<StageRights<RK, RV, JK, T>>,
    left: Side<K, V, JK::Model>,
    project: spec_fn(K, V, Seq<(RK::Model, RV::Model)>) -> Option<O>,
    output: Map<K, O>,
    k: K,
    i: int,
) -> bool {
    0 <= i < chain.len() && lookup(output, k) == lookup(joined(left, chain[i].head@, project), k)
}

/// What is held for a row is what a stage makes of it with the right rows at some point of a chain.
pub open spec fn from_chain<K, V, RK: MapKey, RV: CellValue, JK: MapKey, T, O>(
    chain: Seq<StageRights<RK, RV, JK, T>>,
    left: Side<K, V, JK::Model>,
    project: spec_fn(K, V, Seq<(RK::Model, RV::Model)>) -> Option<O>,
    output: Map<K, O>,
    k: K,
) -> bool {
    exists|i: int| #[trigger] held_from(chain, left, project, output, k, i)
}

/// Changes of single rows, each of another key.
pub open spec fn unique_steps<K, V>(steps: Seq<Change<K, V>>) -> bool {
    &&& forall|i: int| 0 <= i < steps.len() ==> change_key(#[trigger] steps[i]) is Some
    &&& forall|i: int, j: int|
        0 <= i < j < steps.len() ==> change_key(#[trigger] steps[i]) != change_key(
            #[trigger] steps[j],
        )
}

/// Whether diffs, batches opened up, are changes of single rows, each of another key.
pub fn batch_has_unique_atomic_keys<K: MapKey, V: CellValue>(diff: &MapDiff<K, V>) -> (unique: bool)
    ensures
        unique == unique_steps(diff.steps()),
{
    let ghost steps = diff.steps();
    let leaves = diff.leaves();
    let mut seen: FxSet<K> = FxSet::new();
    let mut i: usize = 0;
    while i < leaves.len()
        invariant
            i <= leaves@.len(),
            all_leaves(leaves@),
            steps == diff.steps(),
            atoms(leaves@) == steps,
            unique_steps(steps.take(i as int)),
            forall|k: K::Model|
                seen@.contains(k) <==> exists|n: int|
                    0 <= n < i && change_key(#[trigger] steps[n]) == Some(k),
        decreases leaves@.len() - i,
    {
        proof {
            assert(steps[i as int] == leaves@[i as int].atom());
        }
        match leaves[i].atomic_key() {
            Some(key) => {
                let ghost k = key.model();
                let ghost held = seen@;
                if !seen.insert(key.clone_value()) {
                    proof {
                        let n = choose|n: int| 0 <= n < i && change_key(#[trigger] steps[n]) == Some(k);
                        assert(change_key(steps[n]) == change_key(steps[i as int]));
                    }
                    return false;
                }
                proof {
                    let next = steps.take(i + 1);
                    assert forall|a: int| 0 <= a < next.len() implies change_key(#[trigger] next[a]) is Some by {
                        if a < i {
                            assert(steps.take(i as int)[a] == next[a]);
                        }
                    }
                    assert forall|a: int, b: int| 0 <= a < b < next.len() implies change_key(
                        #[trigger] next[a],
                    ) != change_key(#[trigger] next[b]) by {
                        assert(next[a] == steps[a] && next[b] == steps[b]);
                        if b < i {
                            assert(change_key(steps.take(i as int)[a]) != change_key(
                                steps.take(i as int)[b],
                            ));
                        }
                    }
                    assert forall|x: K::Model|
                        seen@.contains(x) <==> exists|n: int|
                            0 <= n < i + 1 && change_key(#[trigger] steps[n]) == Some(x) by {
                        if seen@.contains(x) {
                            if x == k {
                                assert(change_key(steps[i as int]) == Some(x));
                            } else {
                                assert(held.contains(x));
                                let n = choose|n: int|
                                    0 <= n < i && change_key(#[trigger] steps[n]) == Some(x);
                                assert(change_key(steps[n]) == Some(x));
                            }
                        }
                        if exists|n: int| 0 <= n < i + 1 && change_key(#[trigger] steps[n]) == Some(x) {
                            let n = choose|n: int|
                                0 <= n < i + 1 && change_key(#[trigger] steps[n]) == Some(x);
                            if n < i {
                                assert(held.contains(x));
                            }
                        }
                    }
                }
            },
            None => {
                assert(change_key(steps[i as int]) is None);
                return false;
            },
        }
        i += 1;
    }
    assert(steps.take(i as int) =~= steps);
    true
}

/// A diff that is worked through as a whole: one change, or changes of rows with different keys.
pub open spec fn is_unit<K: CellValue, V: CellValue>(diff: &MapDiff<K, V>) -> bool {
    !(diff is Batch) || unique_steps(diff.steps())
}

/// The stages of a region, of which there is at least one.
pub trait RegionStages<K: MapKey, Input: CellValue>: RuntimeStages<K, Input> {
    /// The row that goes into the first stage under a key.
    fn head_input(&self, shard: &Self::Shard, key: &K) -> (input: Option<Input>)
        ensures
            input.model() == lookup(self.rows(*shard), key.model()),
    ;

    /// Takes a unit of changes through the stages.
    fn apply_unit(&self, rights: &Self::Rights, shard: &mut Self::Shard, diff: &MapDiff<K, Input>) -> (changes:
        Vec<MapDiff<K, Self::Output>>)
        requires
            self.lawful(),
            self.rights_wf(*rights),
            self.sound(*rights, *old(shard)),
            is_unit(diff),
        ensures
            self.sound(*rights, *final(shard)),
            self.rows(*final(shard)) == replay(self.rows(*old(shard)), diff.steps()),
            flat(changes@),
            exists|keys: Seq<K::Model>|
                #![trigger delta(self.output(*old(shard)), keys, self.output(*final(shard)))]
                touches_all(self.rows(*old(shard)), diff.steps(), Seq::empty(), keys)
                    && keys.no_duplicates() && steps_of(changes@) == delta(
                    self.output(*old(shard)),
                    keys,
                    self.output(*final(shard)),
                ) && put_all(self.output(*old(shard)), keys, self.output(*final(shard)))
                    == self.output(*final(shard)),
    ;
}

impl<
    K: MapKey,
    Input: CellValue,
    RK: MapKey,
    RV: CellValue,
    JK: MapKey,
    Mid: CellValue,
    FL: RowFn<K, Input, JK>,
    FR: RightJoinKey<RK, RV, JK>,
    P: StageProject<K, Input, RK, RV, Mid>,
    Tail: RuntimeStages<K, Mid>,
> RegionStages<K, Input> for JCons<StageConfig<K, Input, RK, RV, JK, Mid, FL, FR, P>, Tail> {
    fn head_input(&self, shard: &Self::Shard, key: &K) -> (input: Option<Input>) {
        match shard.head.left_row(key) {
            Some(row) => Some(row.clone_value()),
            None => None,
        }
    }

    fn apply_unit(&self, rights: &Self::Rights, shard: &mut Self::Shard, diff: &MapDiff<K, Input>) -> (changes:
        Vec<MapDiff<K, Tail::Output>>) {
        let ghost side = shard.head.left();
        let ghost m = shard.head.output();
        let ghost steps = diff.steps();
        let ghost rest = seq![rights.tail];
        proof {
            self.tail.sound_settles(rights.tail, shard.tail);
        }
        let head_changes = shard.head.apply_left(
            &rights.head,
            diff,
            &self.head.left_key,
            &self.head.project,
            None,
        );
        let ghost want = shard.head.output();
        let ghost keys = choose|keys: Seq<K::Model>|
            #![trigger delta(m, keys, want)]
            side.keys_run(steps, self.lkey(), Seq::empty(), keys) && steps_of(head_changes@) == delta(
                m,
                keys,
                want,
            );
        proof {
            side.run_effect(steps, self.lkey());
            side.run_rows(steps, self.lkey());
            side.keys_run_effect(steps, self.lkey(), Seq::empty(), keys);
            keys_run_touches(side, steps, self.lkey(), Seq::empty(), keys);
            delta_replays(m, keys, want);
        }
        let changes = self.thread(
            &rights.tail,
            &mut shard.tail,
            &head_changes,
            Ghost(rest),
            Ghost(m),
            Ghost(keys),
            Ghost(want),
        );
        proof {
            self.tail.settled(rest, shard.tail);
            assert(steps_of(changes@) == delta(
                self.output(*old(shard)),
                keys,
                self.output(*shard),
            ));
        }
        changes
    }
}

/// The first right source of a list of stages.
pub struct Here;

/// A right source of the stages after the first.
pub struct There<Location>(pub PhantomData<Location>);

/// Direct entry from one right source into the stage that it belongs to. Earlier stages do not work
/// again when the right rows of a later one change.
pub trait RightRoot<Location, K: MapKey, Input: CellValue, RK: MapKey, RV: CellValue>: RuntimeStages<
    K,
    Input,
> {
    /// The right rows of the stage follow changes; those of the other stages stay.
    spec fn right_run(
        &self,
        before: Self::Rights,
        steps: Seq<Change<RK::Model, RV::Model>>,
        after: Self::Rights,
    ) -> bool;

    /// Each change names the join key that its row had: what it inserts was not there under another
    /// join key, and what it removes or replaces had the join key of the old value or of the new.
    spec fn names_all(&self, rights: Self::Rights, steps: Seq<Change<RK::Model, RV::Model>>) -> bool;

    proof fn right_run_none(&self, rights: Self::Rights)
        ensures
            self.right_run(rights, Seq::empty(), rights),
    ;

    /// The same right rows follow the same changes to the same right rows.
    proof fn right_run_same(
        &self,
        a: Self::Rights,
        b: Self::Rights,
        steps: Seq<Change<RK::Model, RV::Model>>,
        next_a: Self::Rights,
        next_b: Self::Rights,
    )
        requires
            self.same_rights(a, b),
            self.right_run(a, steps, next_a),
            self.right_run(b, steps, next_b),
        ensures
            self.same_rights(next_a, next_b),
    ;

    proof fn right_run_next(
        &self,
        before: Self::Rights,
        steps: Seq<Change<RK::Model, RV::Model>>,
        mid: Self::Rights,
        change: Change<RK::Model, RV::Model>,
        after: Self::Rights,
    )
        requires
            self.right_run(before, steps, mid),
            self.right_run(mid, seq![change], after),
        ensures
            self.right_run(before, steps.push(change), after),
    ;

    proof fn names_next(
        &self,
        before: Self::Rights,
        steps: Seq<Change<RK::Model, RV::Model>>,
        i: int,
        mid: Self::Rights,
    )
        requires
            self.names_all(before, steps),
            0 <= i < steps.len(),
            self.right_run(before, steps.take(i), mid),
        ensures
            self.names_all(mid, seq![steps[i]]),
    ;

    /// Whether each change of a diff names the join key that its row has by then.
    fn names_right_root(&self, rights: &Self::Rights, diff: &MapDiff<RK, RV>) -> (named: bool)
        requires
            self.lawful(),
        ensures
            named == self.names_all(*rights, diff.steps()),
    ;

    /// Lets the right rows of the stage follow a diff as one event, and tells how the output changes.
    fn apply_right_root(
        &self,
        rights: &mut Self::Rights,
        shard: &mut Self::Shard,
        diff: &MapDiff<RK, RV>,
    ) -> (changes: Vec<MapDiff<K, Self::Output>>)
        requires
            self.lawful(),
            self.rights_wf(*old(rights)),
            self.sound(*old(rights), *old(shard)),
        ensures
            self.rights_wf(*final(rights)),
            self.right_run(*old(rights), diff.steps(), *final(rights)),
            self.sound(*final(rights), *final(shard)),
            self.rows(*final(shard)) == self.rows(*old(shard)),
            flat(changes@),
            exists|keys: Seq<K::Model>|
                #![trigger delta(self.output(*old(shard)), keys, self.output(*final(shard)))]
                keys.no_duplicates() && steps_of(changes@) == delta(
                    self.output(*old(shard)),
                    keys,
                    self.output(*final(shard)),
                ) && put_all(self.output(*old(shard)), keys, self.output(*final(shard)))
                    == self.output(*final(shard)),
    ;

    /// The place of the stage, counted from the first.
    spec fn place(&self) -> nat;

    /// The stage has learned of changes: for each left row whose join key one of them names, it keeps
    /// what it makes of the row with these right rows.
    spec fn learned(
        &self,
        rights: Self::Rights,
        shard: Self::Shard,
        changes: Seq<Change<RK::Model, RV::Model>>,
    ) -> bool;

    /// Along a chain the right rows of the stage follow changes, and at its end all of them.
    spec fn follows(
        &self,
        chain: Seq<Self::Rights>,
        steps: Seq<Change<RK::Model, RV::Model>>,
    ) -> bool;

    proof fn learned_none(&self, rights: Self::Rights, shard: Self::Shard)
        ensures
            self.learned(rights, shard, Seq::empty()),
    ;

    /// A stage that has learned of every change keeps what it makes of what it gets with the right
    /// rows as they are.
    proof fn learned_all(
        &self,
        chain: Seq<Self::Rights>,
        steps: Seq<Change<RK::Model, RV::Model>>,
        shard: Self::Shard,
    )
        requires
            chain.len() > 0,
            self.rights_wf(chain[0]),
            self.settles(chain, shard),
            self.follows(chain, steps),
            self.names_all(chain[0], steps),
            self.learned(chain.last(), shard, steps),
        ensures
            self.level(self.place(), chain.last(), shard),
    ;

    /// Right rows that follow changes, as a chain.
    proof fn follows_run(
        &self,
        before: Self::Rights,
        steps: Seq<Change<RK::Model, RV::Model>>,
        after: Self::Rights,
    )
        requires
            self.right_run(before, steps, after),
        ensures
            self.follows(seq![before, after], steps),
    ;

    /// The other stages do not see that the right rows of this one follow changes.
    proof fn right_run_elsewhere(
        &self,
        chain: Seq<Self::Rights>,
        steps: Seq<Change<RK::Model, RV::Model>>,
        after: Self::Rights,
        shard: Self::Shard,
        place: nat,
    )
        requires
            chain.len() > 0,
            self.right_run(chain.last(), steps, after),
            place != self.place(),
        ensures
            self.level(place, chain.last(), shard) ==> self.level(place, after, shard),
            self.steady(place, chain) ==> self.steady(place, chain.push(after)),
    ;

    /// Lets the right rows of the stage follow a diff, and nothing else.
    fn follow_right_root(&self, rights: &mut Self::Rights, diff: &MapDiff<RK, RV>)
        requires
            self.lawful(),
            self.rights_wf(*old(rights)),
        ensures
            self.rights_wf(*final(rights)),
            self.right_run(*old(rights), diff.steps(), *final(rights)),
    ;

    /// Learns of a diff that the right rows have followed, as one event, and tells how the output
    /// changes.
    fn observe_right_root(
        &self,
        rights: &Self::Rights,
        shard: &mut Self::Shard,
        diff: &MapDiff<RK, RV>,
        Ghost(chain): Ghost<Seq<Self::Rights>>,
        Ghost(changes): Ghost<Seq<Change<RK::Model, RV::Model>>>,
    ) -> (told: Vec<MapDiff<K, Self::Output>>)
        requires
            self.lawful(),
            self.rights_wf(*rights),
            chain.len() > 0,
            chain.last() == *rights,
            self.settles(chain, *old(shard)),
            self.learned(*rights, *old(shard), changes),
        ensures
            self.settles(chain, *final(shard)),
            self.learned(*rights, *final(shard), changes + diff.steps()),
            forall|place: nat|
                self.level(place, *rights, *old(shard)) ==> #[trigger] self.level(
                    place,
                    *rights,
                    *final(shard),
                ),
            self.rows(*final(shard)) == self.rows(*old(shard)),
            flat(told@),
            exists|keys: Seq<K::Model>|
                #![trigger delta(self.output(*old(shard)), keys, self.output(*final(shard)))]
                keys.no_duplicates() && steps_of(told@) == delta(
                    self.output(*old(shard)),
                    keys,
                    self.output(*final(shard)),
                ) && put_all(self.output(*old(shard)), keys, self.output(*final(shard)))
                    == self.output(*final(shard)),
    ;
}

/// A change names a join key among changes: it is that of a row that it speaks of, or the change
/// begins anew.
pub open spec fn noticed<RK, RV, JK>(
    changes: Seq<Change<RK, RV>>,
    jk: spec_fn(RK, RV) -> Option<JK>,
    j: JK,
) -> bool {
    exists|i: int|
        0 <= i < changes.len() && ((#[trigger] changes[i]) is Initial || observed_step(
            changes[i],
            jk,
        ).contains(j))
}

proof fn noticed_concat<RK, RV, JK>(
    a: Seq<Change<RK, RV>>,
    b: Seq<Change<RK, RV>>,
    jk: spec_fn(RK, RV) -> Option<JK>,
    j: JK,
)
    ensures
        noticed(a + b, jk, j) == (noticed(a, jk, j) || noticed(b, jk, j)),
{
    let all = a + b;
    if noticed(a, jk, j) {
        let i = choose|i: int|
            0 <= i < a.len() && ((#[trigger] a[i]) is Initial || observed_step(a[i], jk).contains(j));
        assert(all[i] == a[i]);
    }
    if noticed(b, jk, j) {
        let i = choose|i: int|
            0 <= i < b.len() && ((#[trigger] b[i]) is Initial || observed_step(b[i], jk).contains(j));
        assert(all[a.len() + i] == b[i]);
    }
    if noticed(all, jk, j) {
        let i = choose|i: int|
            0 <= i < all.len() && ((#[trigger] all[i]) is Initial || observed_step(
                all[i],
                jk,
            ).contains(j));
        if i < a.len() {
            assert(all[i] == a[i]);
        } else {
            assert(all[i] == b[i - a.len()]);
        }
    }
}

/// The join keys that an observer of a diff looks at: for each change those that it names, and with a
/// new beginning first those that left rows have.
fn noticed_joins<
    LK: MapKey,
    LV: CellValue,
    RK: MapKey,
    RV: CellValue,
    JK: MapKey,
    OV: CellValue,
    FR: RightJoinKey<RK, RV, JK>,
>(half: &KeyedJoin<LK, LV, JK, OV>, diff: &MapDiff<RK, RV>, right_join_key: &FR) -> (joins: Vec<JK>)
    requires
        right_join_key.lawful(),
        half.left().wf(),
    ensures
        forall|k: LK::Model|
            #![trigger half.left().keys.contains_key(k)]
            half.left().keys.contains_key(k) && noticed(
                diff.steps(),
                right_key::<RK, RV, JK, FR>(*right_join_key),
                half.left().keys[k],
            ) ==> models(joins@).contains(half.left().keys[k]),
{
    let ghost jk = right_key::<RK, RV, JK, FR>(*right_join_key);
    let ghost steps = diff.steps();
    let ghost side = half.left();
    let leaves = diff.leaves();
    let mut changed: OrderedSet<JK> = OrderedSet::new();
    let mut i: usize = 0;
    assert(steps.take(0) =~= Seq::empty());
    while i < leaves.len()
        invariant
            i <= leaves@.len(),
            all_leaves(leaves@),
            steps == diff.steps(),
            atoms(leaves@) == steps,
            jk == right_key::<RK, RV, JK, FR>(*right_join_key),
            right_join_key.lawful(),
            side == half.left(),
            side.wf(),
            changed.wf(),
            forall|k: LK::Model|
                #![trigger side.keys.contains_key(k)]
                side.keys.contains_key(k) && noticed(steps.take(i as int), jk, side.keys[k])
                    ==> changed@.contains(side.keys[k]),
        decreases leaves@.len() - i,
    {
        let leaf = leaves[i];
        let ghost before = changed@;
        proof {
            changed.distinct();
        }
        match leaf {
            MapDiff::Initial { .. } => {
                let held = half.left_joins();
                proof {
                    extend_new_contains(before, models(held@));
                }
                changed.extend(&held);
            },
            _ => {},
        }
        let ghost listed = changed@;
        proof {
            changed.distinct();
        }
        observe_joins(leaf, right_join_key, &mut changed);
        proof {
            let c = leaf.atom();
            let own = leaf.steps();
            let named = observed_step(c, jk);
            assert(steps[i as int] == c);
            assert(own.drop_last() =~= Seq::empty());
            assert(own.last() == c);
            assert(changed@ == extend_new(observed_joins(own.drop_last(), jk, listed), named));
            extend_new_contains(listed, named);
            assert(steps.take(i + 1) =~= steps.take(i as int) + seq![c]);
            assert forall|k: LK::Model|
                #![trigger side.keys.contains_key(k)]
                side.keys.contains_key(k) && noticed(
                    steps.take(i + 1),
                    jk,
                    side.keys[k],
                ) implies changed@.contains(side.keys[k]) by {
                let j = side.keys[k];
                noticed_concat(steps.take(i as int), seq![c], jk, j);
                assert(side.member(j, k));
                assert(before.contains(j) ==> listed.contains(j));
                if c is Initial {
                    assert(listed.contains(j));
                }
            }
        }
        i += 1;
    }
    assert(steps.take(i as int) =~= steps);
    changed.drain()
}

/// The change names the join key that its row had on a side.
pub open spec fn names_join<RK, RV, JK>(
    side: Side<RK, RV, JK>,
    change: Change<RK, RV>,
    jk: spec_fn(RK, RV) -> Option<JK>,
) -> bool {
    match change {
        Change::Initial { entries } => true,
        Change::Insert { key, value } => lookup(side.keys, key) is None || lookup(side.keys, key)
            == jk(key, value),
        Change::Remove { key, old_value } => lookup(side.keys, key) is None || lookup(side.keys, key)
            == jk(key, old_value),
        Change::Update { key, old_value, new_value } => lookup(side.keys, key) is None || lookup(
            side.keys,
            key,
        ) == jk(key, old_value) || lookup(side.keys, key) == jk(key, new_value),
    }
}

/// A change that tells the truth about a map names the join key that its row had among the rows of
/// the map that have one.
pub proof fn fitting_change_names_join<RK, RV, JK>(
    side: Side<RK, RV, JK>,
    m: Map<RK, RV>,
    change: Change<RK, RV>,
    jk: spec_fn(RK, RV) -> Option<JK>,
)
    requires
        side.wf(),
        side.keyed_by(jk),
        fits(m, change),
        forall|k: RK| #[trigger] side.rows.contains_key(k) ==> lookup(m, k) == Some(side.rows[k]),
    ensures
        names_join(side, change, jk),
{
    match change_key(change) {
        Some(k) => {
            assert(side.rows.contains_key(k) == side.keys.contains_key(k));
            if side.rows.contains_key(k) {
                assert(jk(k, side.rows[k]) == Some(side.keys[k]));
            }
        },
        None => {},
    }
}

/// Changes that tell the truth about the source of right rows name the join keys that those rows
/// had.
pub proof fn fitting_steps_name_joins<RK, RV, JK>(
    side: Side<RK, RV, JK>,
    m: Map<RK, RV>,
    steps: Seq<Change<RK, RV>>,
    jk: spec_fn(RK, RV) -> Option<JK>,
    n: int,
)
    requires
        side.wf(),
        side.keyed_by(jk),
        side.tracks(m, jk),
        fits_all(m, steps),
        0 <= n < steps.len(),
    ensures
        names_join(side.run(steps.take(n), jk), steps[n], jk),
{
    let part = steps.take(n);
    let now = side.run(part, jk);
    side.run_effect(part, jk);
    side.tracks_run(m, part, jk);
    fits_prefix(m, steps, n);
    assert forall|k: RK| #[trigger] now.rows.contains_key(k) implies lookup(replay(m, part), k) == Some(
        now.rows[k],
    ) by {
        let _ = lookup(now.rows, k);
    }
    fitting_change_names_join(now, replay(m, part), steps[n], jk);
}

proof fn fits_prefix<K, V>(m: Map<K, V>, steps: Seq<Change<K, V>>, n: int)
    requires
        fits_all(m, steps),
        0 <= n < steps.len(),
    ensures
        fits(replay(m, steps.take(n)), steps[n]),
    decreases steps.len(),
{
    let rest = steps.drop_last();
    if n == rest.len() {
        assert(steps.take(n) =~= rest);
    } else {
        fits_prefix(m, rest, n);
        assert(rest.take(n) =~= steps.take(n));
    }
}

/// The rows of a join key stay, unless the change names it or starts anew.
pub proof fn named_change_keeps<RK, RV, JK>(
    side: Side<RK, RV, JK>,
    change: Change<RK, RV>,
    jk: spec_fn(RK, RV) -> Option<JK>,
    j: JK,
)
    requires
        side.wf(),
        names_join(side, change, jk),
        !(change is Initial),
        !observed_step(change, jk).contains(j),
    ensures
        side.step(change, jk).matches_of(j) == side.matches_of(j),
{
    let named = observed_step(change, jk);
    match change {
        Change::Initial { entries } => {},
        Change::Insert { key, value } => {
            side.set_effect(key, value, jk(key, value), jk);
            if jk(key, value) is Some {
                assert(named[0] == jk(key, value)->Some_0);
            }
            joins_named(side, key, jk(key, value), j);
        },
        Change::Remove { key, old_value } => {
            side.set_effect(key, old_value, None, jk);
            if jk(key, old_value) is Some {
                assert(named[0] == jk(key, old_value)->Some_0);
            }
            joins_named(side, key, None, j);
            assert(side.set(key, old_value, None).matches_of(j) == side.matches_of(j));
        },
        Change::Update { key, old_value, new_value } => {
            side.set_effect(key, new_value, jk(key, new_value), jk);
            let a = join_seq(jk(key, old_value));
            if jk(key, old_value) is Some {
                assert(named[0] == jk(key, old_value)->Some_0);
            }
            if jk(key, new_value) is Some {
                assert(named[a.len() as int] == jk(key, new_value)->Some_0);
            }
            joins_named(side, key, jk(key, new_value), j);
        },
    }
}

proof fn joins_named<RK, RV, JK>(side: Side<RK, RV, JK>, key: RK, join: Option<JK>, j: JK)
    requires
        join != Some(j),
        lookup(side.keys, key) != Some(j),
    ensures
        !side.joins_of_set(key, join).contains(j),
{
    let s = side.joins_of_set(key, join);
    if s.contains(j) {
        let i = choose|i: int| 0 <= i < s.len() && s[i] == j;
        assert(s[i] == j);
    }
}

impl<
    K: MapKey,
    Input: CellValue,
    RK: MapKey,
    RV: CellValue,
    JK: MapKey,
    Mid: CellValue,
    FL: RowFn<K, Input, JK>,
    FR: RightJoinKey<RK, RV, JK>,
    P: StageProject<K, Input, RK, RV, Mid>,
    Tail: RuntimeStages<K, Mid>,
> RightRoot<Here, K, Input, RK, RV> for JCons<
    StageConfig<K, Input, RK, RV, JK, Mid, FL, FR, P>,
    Tail,
> {
    open spec fn right_run(
        &self,
        before: Self::Rights,
        steps: Seq<Change<RK::Model, RV::Model>>,
        after: Self::Rights,
    ) -> bool {
        after.head@ == before.head@.run(steps, self.rkey()) && after.tail == before.tail
    }

    open spec fn names_all(&self, rights: Self::Rights, steps: Seq<Change<RK::Model, RV::Model>>) -> bool {
        forall|i: int|
            0 <= i < steps.len() ==> names_join(
                rights.head@.run(steps.take(i), self.rkey()),
                #[trigger] steps[i],
                self.rkey(),
            )
    }

    proof fn right_run_none(&self, rights: Self::Rights) {
    }

    proof fn right_run_same(
        &self,
        a: Self::Rights,
        b: Self::Rights,
        steps: Seq<Change<RK::Model, RV::Model>>,
        next_a: Self::Rights,
        next_b: Self::Rights,
    ) {
    }

    proof fn right_run_next(
        &self,
        before: Self::Rights,
        steps: Seq<Change<RK::Model, RV::Model>>,
        mid: Self::Rights,
        change: Change<RK::Model, RV::Model>,
        after: Self::Rights,
    ) {
        assert(steps.push(change).drop_last() =~= steps);
        assert(seq![change].drop_last() =~= Seq::empty());
        assert(mid.head@.run(seq![change], self.rkey()) == mid.head@.run(
            seq![change].drop_last(),
            self.rkey(),
        ).step(change, self.rkey()));
    }

    proof fn names_next(
        &self,
        before: Self::Rights,
        steps: Seq<Change<RK::Model, RV::Model>>,
        i: int,
        mid: Self::Rights,
    ) {
        let one = seq![steps[i]];
        assert forall|n: int| 0 <= n < one.len() implies names_join(
            mid.head@.run(one.take(n), self.rkey()),
            #[trigger] one[n],
            self.rkey(),
        ) by {
            assert(one.take(n) =~= Seq::empty());
            assert(names_join(before.head@.run(steps.take(i), self.rkey()), steps[i], self.rkey()));
        }
    }

    fn names_right_root(&self, rights: &Self::Rights, diff: &MapDiff<RK, RV>) -> (named: bool) {
        rights.head.names_joins(diff, &self.head.right_key)
    }

    fn apply_right_root(
        &self,
        rights: &mut Self::Rights,
        shard: &mut Self::Shard,
        diff: &MapDiff<RK, RV>,
    ) -> (changes: Vec<MapDiff<K, Tail::Output>>) {
        let ghost side = shard.head.left();
        let ghost right = rights.head@;
        let ghost m = shard.head.output();
        let ghost steps = diff.steps();
        let ghost rest = seq![rights.tail];
        proof {
            rights.head.side_wf();
            self.tail.sound_settles(rights.tail, shard.tail);
        }
        let head_changes = shard.head.apply_right(
            &mut rights.head,
            diff,
            &self.head.right_key,
            &self.head.project,
            None,
        );
        let ghost want = shard.head.output();
        let ghost joins = choose|joins: Seq<JK::Model>|
            #![trigger side.extend_members(joins, Seq::empty())]
            right.joins_run(steps, self.rkey(), Seq::empty(), joins) && steps_of(head_changes@)
                == delta(m, side.extend_members(joins, Seq::empty()), want);
        let ghost keys = side.extend_members(joins, Seq::empty());
        proof {
            side.extend_members_effect(joins, Seq::empty());
            delta_replays(m, keys, want);
        }
        let changes = self.thread(
            &rights.tail,
            &mut shard.tail,
            &head_changes,
            Ghost(rest),
            Ghost(m),
            Ghost(keys),
            Ghost(want),
        );
        proof {
            self.tail.settled(rest, shard.tail);
            assert(steps_of(changes@) == delta(
                self.output(*old(shard)),
                keys,
                self.output(*shard),
            ));
        }
        changes
    }

    open spec fn place(&self) -> nat {
        0
    }

    open spec fn learned(
        &self,
        rights: Self::Rights,
        shard: Self::Shard,
        changes: Seq<Change<RK::Model, RV::Model>>,
    ) -> bool {
        let left = shard.head.left();
        forall|k: K::Model|
            #![trigger left.keys.contains_key(k)]
            left.keys.contains_key(k) && noticed(changes, self.rkey(), left.keys[k]) ==> lookup(
                shard.head.output(),
                k,
            ) == lookup(joined(left, rights.head@, self.proj()), k)
    }

    open spec fn follows(
        &self,
        chain: Seq<Self::Rights>,
        steps: Seq<Change<RK::Model, RV::Model>>,
    ) -> bool {
        &&& chain.len() > 0
        &&& chain.last().head@ == chain[0].head@.run(steps, self.rkey())
        &&& forall|i: int|
            0 <= i < chain.len() ==> #[trigger] along(chain, steps, self.rkey(), i)
    }

    proof fn learned_none(&self, rights: Self::Rights, shard: Self::Shard) {
    }

    proof fn learned_all(
        &self,
        chain: Seq<Self::Rights>,
        steps: Seq<Change<RK::Model, RV::Model>>,
        shard: Self::Shard,
    ) {
        let left = shard.head.left();
        let rights = chain.last();
        let first = chain[0].head@;
        let are = joined(left, rights.head@, self.proj());
        chain[0].head.side_wf();
        assert forall|k: K::Model| #[trigger] lookup(shard.head.output(), k) == lookup(are, k) by {
            assert(from_chain(chain, left, self.proj(), shard.head.output(), k));
            let i = choose|i: int| #[trigger]
                held_from(chain, left, self.proj(), shard.head.output(), k, i);
            joined_lookup(left, chain[i].head@, self.proj(), k);
            joined_lookup(left, rights.head@, self.proj(), k);
            if left.rows.contains_key(k) {
                assert(left.keys.contains_key(k));
                let j = left.keys[k];
                if !noticed(steps, self.rkey(), j) {
                    assert(along(chain, steps, self.rkey(), i));
                    let n = choose|n: int|
                        0 <= n <= steps.len() && chain[i].head@ == #[trigger] first.run(
                            steps.take(n),
                            self.rkey(),
                        );
                    unnoticed_rows_stay(first, steps, self.rkey(), n, j);
                    unnoticed_rows_stay(first, steps, self.rkey(), steps.len() as int, j);
                    assert(steps.take(steps.len() as int) =~= steps);
                }
            }
        }
        lookup_ext(shard.head.output(), are);
    }

    proof fn follows_run(
        &self,
        before: Self::Rights,
        steps: Seq<Change<RK::Model, RV::Model>>,
        after: Self::Rights,
    ) {
        let chain = seq![before, after];
        assert(steps.take(0) =~= Seq::empty());
        assert(steps.take(steps.len() as int) =~= steps);
        assert forall|i: int| 0 <= i < chain.len() implies #[trigger] along(
            chain,
            steps,
            self.rkey(),
            i,
        ) by {
            if i == 0 {
                assert(chain[i].head@ == before.head@.run(steps.take(0), self.rkey()));
            } else {
                assert(chain[i].head@ == before.head@.run(
                    steps.take(steps.len() as int),
                    self.rkey(),
                ));
            }
        }
    }

    proof fn right_run_elsewhere(
        &self,
        chain: Seq<Self::Rights>,
        steps: Seq<Change<RK::Model, RV::Model>>,
        after: Self::Rights,
        shard: Self::Shard,
        place: nat,
    ) {
        let rest = tails(chain);
        assert(tails(chain.push(after)) =~= rest.push(rest.last()));
        if self.steady(place, chain) {
            self.tail.steady_again((place - 1) as nat, rest);
        }
    }

    fn follow_right_root(&self, rights: &mut Self::Rights, diff: &MapDiff<RK, RV>) {
        let mut changed: OrderedSet<JK> = OrderedSet::new();
        rights.head.apply_diff(diff, &self.head.right_key, &mut changed);
    }

    fn observe_right_root(
        &self,
        rights: &Self::Rights,
        shard: &mut Self::Shard,
        diff: &MapDiff<RK, RV>,
        Ghost(chain): Ghost<Seq<Self::Rights>>,
        Ghost(changes): Ghost<Seq<Change<RK::Model, RV::Model>>>,
    ) -> (told: Vec<MapDiff<K, Tail::Output>>) {
        let ghost side = shard.head.left();
        let ghost m = shard.head.output();
        let ghost rest = tails(chain);
        let joins = noticed_joins(&shard.head, diff, &self.head.right_key);
        let head_changes = shard.head.recompute_joins(&rights.head, &joins, &self.head.project);
        let ghost are = joined(side, rights.head@, self.proj());
        let ghost keys = side.extend_members(models(joins@), Seq::empty());
        let ghost want = shard.head.output();
        proof {
            let steps = diff.steps();
            side.extend_members_effect(models(joins@), Seq::empty());
            delta_replays(m, keys, are);
            crate::delta::delta_settles(m, keys, are);
            assert(want == put_all(m, keys, are));
            put_all_lookup(m, keys, are);
            put_all_lookup(m, keys, want);
            crate::delta::put_all_covers(m, keys, want);
            assert forall|k: K::Model| #[trigger] from_chain(chain, side, self.proj(), want, k) by {
                if keys.contains(k) {
                    assert(held_from(chain, side, self.proj(), want, k, chain.len() - 1));
                } else {
                    assert(from_chain(chain, side, self.proj(), m, k));
                    let i = choose|i: int| #[trigger] held_from(chain, side, self.proj(), m, k, i);
                    assert(held_from(chain, side, self.proj(), want, k, i));
                }
            }
            assert forall|k: K::Model|
                #![trigger side.keys.contains_key(k)]
                side.keys.contains_key(k) && noticed(
                    changes + steps,
                    self.rkey(),
                    side.keys[k],
                ) implies lookup(want, k) == lookup(are, k) by {
                let j = side.keys[k];
                noticed_concat(changes, steps, self.rkey(), j);
                assert(side.member(j, k));
            }
            if self.level(0, *rights, *old(shard)) {
                assert forall|k: K::Model| #[trigger] lookup(want, k) == lookup(are, k) by {
                    let _ = lookup(m, k);
                }
                lookup_ext(want, are);
            }
            assert(rest.last() == rights.tail);
        }
        let told = self.thread(
            &rights.tail,
            &mut shard.tail,
            &head_changes,
            Ghost(rest),
            Ghost(m),
            Ghost(keys),
            Ghost(want),
        );
        proof {
            assert(steps_of(told@) == delta(self.output(*old(shard)), keys, self.output(*shard)));
            assert forall|place: nat|
                self.level(place, *rights, *old(shard)) implies #[trigger] self.level(
                place,
                *rights,
                *shard,
            ) by {
                if place > 0 {
                    let before = (*old(shard)).tail;
                    assert(self.tail.level((place - 1) as nat, rights.tail, before));
                    assert(self.tail.level((place - 1) as nat, rights.tail, shard.tail));
                }
            }
        }
        told
    }
}

/// The right rows at a point of a chain are those that part of the changes have led to.
pub open spec fn along<RK: MapKey, RV: CellValue, JK: MapKey, T>(
    chain: Seq<StageRights<RK, RV, JK, T>>,
    steps: Seq<Change<RK::Model, RV::Model>>,
    jk: spec_fn(RK::Model, RV::Model) -> Option<JK::Model>,
    i: int,
) -> bool {
    exists|n: int|
        0 <= n <= steps.len() && chain[i].head@ == #[trigger] chain[0].head@.run(steps.take(n), jk)
}

/// The rows of a join key that no change names stay.
proof fn unnoticed_rows_stay<RK, RV, JK>(
    side: Side<RK, RV, JK>,
    steps: Seq<Change<RK, RV>>,
    jk: spec_fn(RK, RV) -> Option<JK>,
    n: int,
    j: JK,
)
    requires
        side.wf(),
        0 <= n <= steps.len(),
        forall|i: int|
            0 <= i < steps.len() ==> names_join(
                side.run(steps.take(i), jk),
                #[trigger] steps[i],
                jk,
            ),
        !noticed(steps, jk, j),
    ensures
        side.run(steps.take(n), jk).matches_of(j) == side.matches_of(j),
    decreases n,
{
    if n == 0 {
        assert(steps.take(0) =~= Seq::empty());
    } else {
        unnoticed_rows_stay(side, steps, jk, n - 1, j);
        let mid = side.run(steps.take(n - 1), jk);
        side.run_effect(steps.take(n - 1), jk);
        assert(steps.take(n).drop_last() =~= steps.take(n - 1));
        let c = steps[n - 1];
        assert(!(c is Initial) && !observed_step(c, jk).contains(j));
        assert(names_join(mid, c, jk));
        named_change_keeps(mid, c, jk, j);
    }
}

impl<
    Location,
    K: MapKey,
    Input: CellValue,
    RK0: MapKey,
    RV0: CellValue,
    JK0: MapKey,
    Mid: CellValue,
    FL: RowFn<K, Input, JK0>,
    FR: RightJoinKey<RK0, RV0, JK0>,
    P: StageProject<K, Input, RK0, RV0, Mid>,
    RK: MapKey,
    RV: CellValue,
    Tail: RightRoot<Location, K, Mid, RK, RV>,
> RightRoot<There<Location>, K, Input, RK, RV> for JCons<
    StageConfig<K, Input, RK0, RV0, JK0, Mid, FL, FR, P>,
    Tail,
> {
    open spec fn right_run(
        &self,
        before: Self::Rights,
        steps: Seq<Change<RK::Model, RV::Model>>,
        after: Self::Rights,
    ) -> bool {
        after.head@ == before.head@ && self.tail.right_run(before.tail, steps, after.tail)
    }

    open spec fn names_all(&self, rights: Self::Rights, steps: Seq<Change<RK::Model, RV::Model>>) -> bool {
        self.tail.names_all(rights.tail, steps)
    }

    proof fn right_run_none(&self, rights: Self::Rights) {
        self.tail.right_run_none(rights.tail);
    }

    proof fn right_run_same(
        &self,
        a: Self::Rights,
        b: Self::Rights,
        steps: Seq<Change<RK::Model, RV::Model>>,
        next_a: Self::Rights,
        next_b: Self::Rights,
    ) {
        self.tail.right_run_same(a.tail, b.tail, steps, next_a.tail, next_b.tail);
    }

    proof fn right_run_next(
        &self,
        before: Self::Rights,
        steps: Seq<Change<RK::Model, RV::Model>>,
        mid: Self::Rights,
        change: Change<RK::Model, RV::Model>,
        after: Self::Rights,
    ) {
        self.tail.right_run_next(before.tail, steps, mid.tail, change, after.tail);
    }

    proof fn names_next(
        &self,
        before: Self::Rights,
        steps: Seq<Change<RK::Model, RV::Model>>,
        i: int,
        mid: Self::Rights,
    ) {
        self.tail.names_next(before.tail, steps, i, mid.tail);
    }

    fn names_right_root(&self, rights: &Self::Rights, diff: &MapDiff<RK, RV>) -> (named: bool) {
        self.tail.names_right_root(&rights.tail, diff)
    }

    fn apply_right_root(
        &self,
        rights: &mut Self::Rights,
        shard: &mut Self::Shard,
        diff: &MapDiff<RK, RV>,
    ) -> (changes: Vec<MapDiff<K, Tail::Output>>) {
        let changes = self.tail.apply_right_root(&mut rights.tail, &mut shard.tail, diff);
        proof {
            let out = self.tail.output((*old(shard)).tail);
            let out2 = self.tail.output(shard.tail);
            let keys = choose|keys: Seq<K::Model>|
                #![trigger delta(out, keys, out2)]
                keys.no_duplicates() && steps_of(changes@) == delta(out, keys, out2) && put_all(
                    out,
                    keys,
                    out2,
                ) == out2;
            assert(steps_of(changes@) == delta(
                self.output(*old(shard)),
                keys,
                self.output(*shard),
            ));
        }
        changes
    }

    open spec fn place(&self) -> nat {
        self.tail.place() + 1
    }

    open spec fn learned(
        &self,
        rights: Self::Rights,
        shard: Self::Shard,
        changes: Seq<Change<RK::Model, RV::Model>>,
    ) -> bool {
        self.tail.learned(rights.tail, shard.tail, changes)
    }

    open spec fn follows(
        &self,
        chain: Seq<Self::Rights>,
        steps: Seq<Change<RK::Model, RV::Model>>,
    ) -> bool {
        self.tail.follows(tails(chain), steps)
    }

    proof fn learned_none(&self, rights: Self::Rights, shard: Self::Shard) {
        self.tail.learned_none(rights.tail, shard.tail);
    }

    proof fn learned_all(
        &self,
        chain: Seq<Self::Rights>,
        steps: Seq<Change<RK::Model, RV::Model>>,
        shard: Self::Shard,
    ) {
        let rest = tails(chain);
        assert(rest[0] == chain[0].tail);
        assert(rest.last() == chain.last().tail);
        self.tail.learned_all(rest, steps, shard.tail);
    }

    proof fn follows_run(
        &self,
        before: Self::Rights,
        steps: Seq<Change<RK::Model, RV::Model>>,
        after: Self::Rights,
    ) {
        self.tail.follows_run(before.tail, steps, after.tail);
        assert(tails(seq![before, after]) =~= seq![before.tail, after.tail]);
    }

    proof fn right_run_elsewhere(
        &self,
        chain: Seq<Self::Rights>,
        steps: Seq<Change<RK::Model, RV::Model>>,
        after: Self::Rights,
        shard: Self::Shard,
        place: nat,
    ) {
        let rest = tails(chain);
        let longer = chain.push(after);
        assert(tails(longer) =~= rest.push(after.tail));
        assert(rest.last() == chain.last().tail);
        if place == 0 {
            if self.steady(place, chain) {
                assert forall|i: int| 0 <= i < longer.len() implies (#[trigger] longer[i]).head@
                    == longer.last().head@ by {
                    if i < chain.len() {
                        assert(longer[i] == chain[i]);
                    }
                }
            }
        } else {
            self.tail.right_run_elsewhere(rest, steps, after.tail, shard.tail, (place - 1) as nat);
        }
    }

    fn follow_right_root(&self, rights: &mut Self::Rights, diff: &MapDiff<RK, RV>) {
        self.tail.follow_right_root(&mut rights.tail, diff);
    }

    fn observe_right_root(
        &self,
        rights: &Self::Rights,
        shard: &mut Self::Shard,
        diff: &MapDiff<RK, RV>,
        Ghost(chain): Ghost<Seq<Self::Rights>>,
        Ghost(changes): Ghost<Seq<Change<RK::Model, RV::Model>>>,
    ) -> (told: Vec<MapDiff<K, Tail::Output>>) {
        let ghost rest = tails(chain);
        proof {
            assert(rest.last() == rights.tail);
        }
        let ghost before = shard.tail;
        let told = self.tail.observe_right_root(
            &rights.tail,
            &mut shard.tail,
            diff,
            Ghost(rest),
            Ghost(changes),
        );
        proof {
            let out = self.tail.output(before);
            let out2 = self.tail.output(shard.tail);
            let keys = choose|keys: Seq<K::Model>|
                #![trigger delta(out, keys, out2)]
                keys.no_duplicates() && steps_of(told@) == delta(out, keys, out2) && put_all(
                    out,
                    keys,
                    out2,
                ) == out2;
            assert(steps_of(told@) == delta(self.output(*old(shard)), keys, self.output(*shard)));
            assert forall|place: nat|
                self.level(place, *rights, *old(shard)) implies #[trigger] self.level(
                place,
                *rights,
                *shard,
            ) by {
                if place > 0 {
                    assert(self.tail.level((place - 1) as nat, rights.tail, before));
                    assert(self.tail.level((place - 1) as nat, rights.tail, shard.tail));
                }
            }
        }
        told
    }
}

} // verus!
