//! A join in which a left row has any number of join keys.
use vstd::prelude::*;

use crate::delta::{commit_keyed_value, delta, delta_replays, put_all, put_all_covers};
use crate::diff::{
    all_leaves, atoms, entries_map, fits_all, flat, replay, replay_concat, steps_of, Change,
    MapDiff,
};
use crate::foreign_key::{right_key, RightJoinKey};
use crate::func::{call2, image2, pure2, RowFn};
use crate::fx::{lists, lookup, FxMap, FxSet};
use crate::index::{
    add_index_member, add_member, drop_member, drop_member_effect, empty_side, entry_keys,
    holds, remove_index_member, rows_of, side_of, side_of_source, Side,
};
use crate::join_region::declaration::{projection, StageProject};
use crate::join_region::stage_runtime::{touches, touches_all};
use crate::join_runtime::rows::entries_map_keys;
use crate::join_runtime::state::RelationIndex;
use crate::map_runtime::{batch_of, emits, emitted_changes};
use crate::ordered_set::{extend_new, extend_new_contains, push_new, push_new_contains, OrderedSet};
use crate::value::{models, models_push, CellValue, MapKey};

verus! {

/// The members of each join key once a member has left several join keys.
pub open spec fn leave_all<J, K>(members: Map<J, Seq<K>>, joins: Seq<J>, k: K) -> Map<J, Seq<K>>
    decreases joins.len(),
{
    if joins.len() == 0 {
        members
    } else {
        drop_member(leave_all(members, joins.drop_last(), k), joins.last(), k)
    }
}

/// The members of each join key once a member has come to several join keys.
pub open spec fn enter_all<J, K>(members: Map<J, Seq<K>>, joins: Seq<J>, k: K) -> Map<J, Seq<K>>
    decreases joins.len(),
{
    if joins.len() == 0 {
        members
    } else {
        add_member(enter_all(members, joins.drop_last(), k), joins.last(), k)
    }
}

/// Every join key has members, each once.
pub open spec fn members_wf<J, K>(members: Map<J, Seq<K>>) -> bool {
    forall|j: J| #[trigger]
        members.contains_key(j) ==> members[j].len() > 0 && members[j].no_duplicates()
}

proof fn drop_last_contains<J>(joins: Seq<J>)
    requires
        joins.len() > 0,
    ensures
        forall|j: J| joins.contains(j) <==> joins.drop_last().contains(j) || j == joins.last(),
{
    let rest = joins.drop_last();
    assert forall|j: J| joins.contains(j) <==> rest.contains(j) || j == joins.last() by {
        if rest.contains(j) {
            let i = choose|i: int| 0 <= i < rest.len() && rest[i] == j;
            assert(joins[i] == j);
        }
        assert(joins[joins.len() - 1] == joins.last());
        if joins.contains(j) {
            let i = choose|i: int| 0 <= i < joins.len() && joins[i] == j;
            if i < rest.len() {
                assert(rest[i] == j);
            }
        }
    }
}

proof fn leave_all_effect<J, K>(members: Map<J, Seq<K>>, joins: Seq<J>, k: K)
    requires
        members_wf(members),
    ensures
        members_wf(leave_all(members, joins, k)),
        forall|j: J, x: K| #[trigger]
            holds(leave_all(members, joins, k), j, x) == (holds(members, j, x) && !(x == k
                && joins.contains(j))),
    decreases joins.len(),
{
    if joins.len() > 0 {
        let rest = joins.drop_last();
        leave_all_effect(members, rest, k);
        drop_member_effect(leave_all(members, rest, k), joins.last(), k);
        drop_last_contains(joins);
        assert forall|j: J, x: K| #[trigger] holds(leave_all(members, joins, k), j, x) == (holds(
            members,
            j,
            x,
        ) && !(x == k && joins.contains(j))) by {
            let _ = holds(leave_all(members, rest, k), j, x);
        }
    }
}

proof fn enter_all_effect<J, K>(members: Map<J, Seq<K>>, joins: Seq<J>, k: K)
    requires
        members_wf(members),
    ensures
        members_wf(enter_all(members, joins, k)),
        forall|j: J, x: K| #[trigger]
            holds(enter_all(members, joins, k), j, x) == (holds(members, j, x) || (x == k
                && joins.contains(j))),
    decreases joins.len(),
{
    if joins.len() > 0 {
        let rest = joins.drop_last();
        let last = joins.last();
        enter_all_effect(members, rest, k);
        drop_last_contains(joins);
        let mid = enter_all(members, rest, k);
        let put = if mid.contains_key(last) { push_new(mid[last], k) } else { seq![k] };
        if mid.contains_key(last) {
            push_new_contains(mid[last], k);
        } else {
            assert forall|x: K| put.contains(x) <==> x == k by {
                assert(put[0] == k);
            }
        }
        let after = enter_all(members, joins, k);
        assert forall|j: J, x: K| #[trigger] holds(after, j, x) == (holds(members, j, x) || (x == k
            && joins.contains(j))) by {
            let _ = holds(mid, j, x);
            if j == last {
                assert(after[j] == put);
                assert(put.contains(x) <==> holds(mid, j, x) || x == k);
            }
        }
    }
}

/// The left side of a join in which a row has any number of join keys.
#[verifier::reject_recursive_types(K)]
#[verifier::reject_recursive_types(J)]
pub struct MultiSide<K, V, J> {
    pub rows: Map<K, V>,
    pub keys: Map<K, Seq<J>>,
    pub members: Map<J, Seq<K>>,
}

impl<K, V, J> MultiSide<K, V, J> {
    /// The rows and the join keys agree with the members of each join key.
    pub open spec fn wf(self) -> bool {
        &&& members_wf(self.members)
        &&& forall|k: K| #[trigger] self.rows.contains_key(k) == self.keys.contains_key(k)
        &&& forall|j: J, k: K| #[trigger]
            holds(self.members, j, k) == (self.keys.contains_key(k) && self.keys[k].contains(j))
    }

    /// Each row has the join keys that `jk` gives for it.
    pub open spec fn keyed_by(self, jk: spec_fn(K, V) -> Seq<J>) -> bool {
        forall|k: K| #[trigger] self.rows.contains_key(k) ==> self.keys[k] == jk(k, self.rows[k])
    }

    pub open spec fn left_members(self, k: K) -> Map<J, Seq<K>> {
        if self.keys.contains_key(k) {
            leave_all(self.members, self.keys[k], k)
        } else {
            self.members
        }
    }

    pub open spec fn set(self, k: K, v: V, joins: Seq<J>) -> MultiSide<K, V, J> {
        MultiSide {
            rows: self.rows.insert(k, v),
            keys: self.keys.insert(k, joins),
            members: enter_all(self.left_members(k), joins, k),
        }
    }

    pub open spec fn dropped(self, k: K) -> MultiSide<K, V, J> {
        MultiSide {
            rows: self.rows.remove(k),
            keys: self.keys.remove(k),
            members: self.left_members(k),
        }
    }

    pub proof fn set_effect(self, k: K, v: V, joins: Seq<J>, jk: spec_fn(K, V) -> Seq<J>)
        requires
            self.wf(),
        ensures
            self.set(k, v, joins).wf(),
            self.dropped(k).wf(),
            self.keyed_by(jk) && joins == jk(k, v) ==> self.set(k, v, joins).keyed_by(jk),
            self.keyed_by(jk) ==> self.dropped(k).keyed_by(jk),
    {
        let rest = self.left_members(k);
        if self.keys.contains_key(k) {
            leave_all_effect(self.members, self.keys[k], k);
        }
        enter_all_effect(rest, joins, k);
        let a = self.set(k, v, joins);
        let d = self.dropped(k);
        assert forall|j: J, x: K| #[trigger] holds(rest, j, x) == (self.keys.contains_key(x)
            && self.keys[x].contains(j) && x != k) by {
            let _ = holds(self.members, j, x);
        }
        assert forall|j: J, x: K| #[trigger] holds(a.members, j, x) == (a.keys.contains_key(x)
            && a.keys[x].contains(j)) by {
            let _ = holds(rest, j, x);
        }
        assert forall|j: J, x: K| #[trigger] holds(d.members, j, x) == (d.keys.contains_key(x)
            && d.keys[x].contains(j)) by {
            let _ = holds(rest, j, x);
        }
    }
}

/// The rows that have a join key and are not among those found, put behind them.
pub open spec fn find_more<K, V>(found: Seq<(K, V)>, rows: Seq<(K, V)>) -> Seq<(K, V)>
    decreases rows.len(),
{
    if rows.len() == 0 {
        found
    } else {
        let sofar = find_more(found, rows.drop_last());
        if entry_keys(sofar).contains(rows.last().0) {
            sofar
        } else {
            sofar.push(rows.last())
        }
    }
}

/// The right rows that have one of several join keys, each once: in the order of the join keys, and
/// for one join key in the order of the rows.
pub open spec fn found_rows<RK, RV, JK>(right: Side<RK, RV, JK>, joins: Seq<JK>) -> Seq<(RK, RV)>
    decreases joins.len(),
{
    if joins.len() == 0 {
        Seq::empty()
    } else {
        find_more(found_rows(right, joins.drop_last()), right.matches_of(joins.last()))
    }
}

/// The rows found depend on the rows of the join keys alone.
proof fn found_rows_same<RK, RV, JK>(a: Side<RK, RV, JK>, b: Side<RK, RV, JK>, joins: Seq<JK>)
    requires
        forall|j: JK| #[trigger] joins.contains(j) ==> a.matches_of(j) == b.matches_of(j),
    ensures
        found_rows(a, joins) == found_rows(b, joins),
    decreases joins.len(),
{
    if joins.len() > 0 {
        drop_last_contains(joins);
        assert(joins.contains(joins.last()));
        assert forall|j: JK| #[trigger] joins.drop_last().contains(j) implies a.matches_of(j)
            == b.matches_of(j) by {
            assert(joins.contains(j));
        }
        found_rows_same(a, b, joins.drop_last());
    }
}

proof fn find_more_once<K, V>(found: Seq<(K, V)>, rows: Seq<(K, V)>)
    requires
        entry_keys(found).no_duplicates(),
        entry_keys(rows).no_duplicates(),
    ensures
        entry_keys(find_more(found, rows)).no_duplicates(),
        forall|k: K| #[trigger]
            lookup(entries_map(find_more(found, rows)), k) == match lookup(entries_map(found), k) {
                Some(v) => Some(v),
                None => lookup(entries_map(rows), k),
            },
    decreases rows.len(),
{
    if rows.len() > 0 {
        let rest = rows.drop_last();
        let (n, v) = rows.last();
        assert(entry_keys(rest) =~= entry_keys(rows).drop_last());
        find_more_once(found, rest);
        let sofar = find_more(found, rest);
        entries_map_keys(sofar);
        entries_map_keys(rest);
        assert(!entry_keys(rest).contains(n)) by {
            if entry_keys(rest).contains(n) {
                let i = choose|i: int| 0 <= i < rest.len() && entry_keys(rest)[i] == n;
                assert(entry_keys(rows)[i] == entry_keys(rows)[rows.len() - 1]);
            }
        }
        if !entry_keys(sofar).contains(n) {
            let more = sofar.push((n, v));
            assert(more.drop_last() =~= sofar);
            assert(entry_keys(more) =~= entry_keys(sofar).push(n));
        }
        assert forall|k: K| #[trigger]
            lookup(entries_map(find_more(found, rows)), k) == match lookup(entries_map(found), k) {
                Some(v) => Some(v),
                None => lookup(entries_map(rows), k),
            } by {
            let _ = lookup(entries_map(sofar), k);
        }
    }
}

/// A row with several join keys sees each right row that has one of them exactly once.
pub proof fn found_rows_once<RK, RV, JK>(right: Side<RK, RV, JK>, joins: Seq<JK>)
    requires
        right.wf(),
    ensures
        entry_keys(found_rows(right, joins)).no_duplicates(),
        forall|r: RK| #[trigger]
            lookup(entries_map(found_rows(right, joins)), r) == (if right.rows.contains_key(r)
                && joins.contains(right.keys[r]) {
                Some(right.rows[r])
            } else {
                None
            }),
    decreases joins.len(),
{
    if joins.len() > 0 {
        let rest = joins.drop_last();
        let j = joins.last();
        let found = found_rows(right, rest);
        let rows = right.matches_of(j);
        found_rows_once(right, rest);
        drop_last_contains(joins);
        assert(entry_keys(rows).no_duplicates()) by {
            assert forall|i: int, n: int| 0 <= i < rows.len() && 0 <= n < rows.len() && i != n implies entry_keys(
                rows,
            )[i] != entry_keys(rows)[n] by {
                right.matches_lookup(j, entry_keys(rows)[i]);
            }
        }
        find_more_once(found, rows);
        assert forall|r: RK| #[trigger]
            lookup(entries_map(found_rows(right, joins)), r) == (if right.rows.contains_key(r)
                && joins.contains(right.keys[r]) {
                Some(right.rows[r])
            } else {
                None
            }) by {
            right.matches_lookup(j, r);
            let _ = lookup(entries_map(found), r);
            if joins.contains(right.keys[r]) && right.keys[r] != j {
                let i = choose|i: int| 0 <= i < joins.len() && joins[i] == right.keys[r];
                assert(rest[i] == right.keys[r]);
            }
            if rest.contains(right.keys[r]) {
                let i = choose|i: int| 0 <= i < rest.len() && rest[i] == right.keys[r];
                assert(joins[i] == right.keys[r]);
            }
            assert(joins[joins.len() - 1] == j);
        }
    }
}

/// The output of a join in which a left row has any number of join keys.
pub open spec fn multi_joined<LK, LV, RK, RV, JK, OV>(
    left: MultiSide<LK, LV, JK>,
    right: Side<RK, RV, JK>,
    project: spec_fn(LK, LV, Seq<(RK, RV)>) -> Option<OV>,
) -> Map<LK, OV> {
    Map::new(
        |k: LK|
            left.rows.contains_key(k) && project(k, left.rows[k], found_rows(right, left.keys[k])) is Some,
        |k: LK| project(k, left.rows[k], found_rows(right, left.keys[k]))->Some_0,
    )
}

pub proof fn multi_joined_lookup<LK, LV, RK, RV, JK, OV>(
    left: MultiSide<LK, LV, JK>,
    right: Side<RK, RV, JK>,
    project: spec_fn(LK, LV, Seq<(RK, RV)>) -> Option<OV>,
    k: LK,
)
    ensures
        lookup(multi_joined(left, right, project), k) == if left.rows.contains_key(k) {
            project(k, left.rows[k], found_rows(right, left.keys[k]))
        } else {
            None
        },
{
}

/// The join keys of a left row, as a closure gives them.
pub open spec fn multi_key<K: CellValue, V: CellValue, J: CellValue, F: RowFn<K, V, Vec<J>>>(
    f: F,
) -> spec_fn(K::Model, V::Model) -> Seq<J::Model> {
    |k: K::Model, v: V::Model| image2::<K, V, Vec<J>, F>(f, k, v)
}

/// The left half of a join in which a left row has any number of join keys.
#[verifier::reject_recursive_types(LK)]
#[verifier::reject_recursive_types(LV)]
#[verifier::reject_recursive_types(JK)]
#[verifier::reject_recursive_types(OV)]
pub struct MultiJoin<LK: MapKey, LV: CellValue, JK: MapKey, OV: CellValue> {
    left_rows: FxMap<LK, LV>,
    left_join_keys: FxMap<LK, Vec<JK>>,
    join_to_left: FxMap<JK, Vec<LK>>,
    output_cache: FxMap<LK, OV>,
}

impl<LK: MapKey, LV: CellValue, JK: MapKey, OV: CellValue> MultiJoin<LK, LV, JK, OV> {
    /// The left rows.
    pub closed spec fn left(&self) -> MultiSide<LK::Model, LV::Model, JK::Model> {
        MultiSide {
            rows: self.left_rows@,
            keys: self.left_join_keys@,
            members: self.join_to_left@,
        }
    }

    /// The kept output.
    pub closed spec fn output(&self) -> Map<LK::Model, OV::Model> {
        self.output_cache@
    }

    /// The kept output is the join of the left rows with these right rows.
    pub open spec fn joins<RK, RV>(
        &self,
        right: Side<RK, RV, JK::Model>,
        project: spec_fn(LK::Model, LV::Model, Seq<(RK, RV)>) -> Option<OV::Model>,
    ) -> bool {
        &&& self.left().wf()
        &&& self.output() == multi_joined(self.left(), right, project)
    }

    pub fn new() -> (join: MultiJoin<LK, LV, JK, OV>)
        ensures
            join.left().wf(),
            join.left().rows == Map::<LK::Model, LV::Model>::empty(),
            join.output() == Map::<LK::Model, OV::Model>::empty(),
    {
        MultiJoin {
            left_rows: FxMap::new(),
            left_join_keys: FxMap::new(),
            join_to_left: FxMap::new(),
            output_cache: FxMap::new(),
        }
    }

    /// The kept output at a key.
    pub fn get(&self, key: &LK) -> (value: Option<&OV>)
        ensures
            value is Some == self.output().contains_key(key.model()),
            value is Some ==> value->Some_0.model() == self.output()[key.model()],
    {
        self.output_cache.get(key)
    }

    fn leave_joins(&mut self, key: &LK)
        ensures
            final(self).left_rows@ == old(self).left_rows@,
            final(self).output() == old(self).output(),
            final(self).left_join_keys@ == old(self).left_join_keys@.remove(key.model()),
            final(self).join_to_left@ == old(self).left().left_members(key.model()),
    {
        let ghost start = self.join_to_left@;
        match self.left_join_keys.remove(key) {
            Some(previous) => {
                let ghost joins = models(previous@);
                let mut i: usize = 0;
                assert(joins.take(0) =~= Seq::empty());
                while i < previous.len()
                    invariant
                        i <= previous@.len(),
                        joins == models(previous@),
                        self.left_rows@ == old(self).left_rows@,
                        self.output() == old(self).output(),
                        self.left_join_keys@ == old(self).left_join_keys@.remove(key.model()),
                        self.join_to_left@ == leave_all(start, joins.take(i as int), key.model()),
                    decreases previous@.len() - i,
                {
                    proof {
                        assert(joins.take(i + 1).drop_last() =~= joins.take(i as int));
                        assert(joins.take(i + 1).last() == previous@[i as int].model());
                    }
                    remove_index_member(&mut self.join_to_left, &previous[i], key);
                    i += 1;
                }
                assert(joins.take(i as int) =~= joins);
            },
            None => {
                assert(self.left_join_keys@ =~= old(self).left_join_keys@.remove(key.model()));
            },
        }
    }

    fn upsert_left<FL: RowFn<LK, LV, Vec<JK>>>(
        &mut self,
        key: &LK,
        value: &LV,
        left_join_keys_fn: &FL,
        impacted: &mut OrderedSet<LK>,
    )
        requires
            pure2::<LK, LV, Vec<JK>, FL>(*left_join_keys_fn),
            old(impacted).wf(),
        ensures
            final(self).left() == old(self).left().set(
                key.model(),
                value.model(),
                multi_key::<LK, LV, JK, FL>(*left_join_keys_fn)(key.model(), value.model()),
            ),
            final(self).output() == old(self).output(),
            final(impacted).wf(),
            final(impacted)@ == push_new(old(impacted)@, key.model()),
    {
        self.leave_joins(key);
        let ghost start = self.join_to_left@;
        let join_keys = call2(left_join_keys_fn, key, value);
        let ghost joins = models(join_keys@);
        let mut i: usize = 0;
        assert(joins.take(0) =~= Seq::empty());
        while i < join_keys.len()
            invariant
                i <= join_keys@.len(),
                joins == models(join_keys@),
                self.left_rows@ == old(self).left_rows@,
                self.output() == old(self).output(),
                self.left_join_keys@ == old(self).left_join_keys@.remove(key.model()),
                self.join_to_left@ == enter_all(start, joins.take(i as int), key.model()),
            decreases join_keys@.len() - i,
        {
            proof {
                assert(joins.take(i + 1).drop_last() =~= joins.take(i as int));
                assert(joins.take(i + 1).last() == join_keys@[i as int].model());
            }
            add_index_member(
                &mut self.join_to_left,
                join_keys[i].clone_value(),
                key.clone_value(),
            );
            i += 1;
        }
        assert(joins.take(i as int) =~= joins);
        self.left_rows.insert(key.clone_value(), value.clone_value());
        self.left_join_keys.insert(key.clone_value(), join_keys);
        impacted.insert(key.clone_value());
        assert(self.left_join_keys@ =~= old(self).left_join_keys@.insert(key.model(), joins));
    }

    fn apply_left_change<FL: RowFn<LK, LV, Vec<JK>>>(
        &mut self,
        leaf: &MapDiff<LK, LV>,
        left_join_keys_fn: &FL,
        impacted: &mut OrderedSet<LK>,
    )
        requires
            old(self).left().wf(),
            pure2::<LK, LV, Vec<JK>, FL>(*left_join_keys_fn),
            old(impacted).wf(),
            !(leaf is Batch),
        ensures
            final(self).left().wf(),
            old(self).left().keyed_by(multi_key::<LK, LV, JK, FL>(*left_join_keys_fn)) ==> final(self).left().keyed_by(multi_key::<LK, LV, JK, FL>(*left_join_keys_fn)),
            final(self).left().rows == crate::diff::apply_change(old(self).left().rows, leaf.atom()),
            final(self).output() == old(self).output(),
            final(impacted).wf(),
            touches(old(self).left().rows, leaf.atom(), old(impacted)@, final(impacted)@),
            forall|k: LK::Model|
                !final(impacted)@.contains(k) ==> #[trigger] lookup(final(self).left().keys, k)
                    == lookup(old(self).left().keys, k),
    {
        let ghost jk = multi_key::<LK, LV, JK, FL>(*left_join_keys_fn);
        let ghost side = self.left();
        proof {
            impacted.distinct();
        }
        match leaf {
            MapDiff::Initial { entries } => {
                let dropped = self.left_rows.keys();
                self.left_rows.clear();
                self.left_join_keys.clear();
                self.join_to_left.clear();
                let ghost base = extend_new(impacted@, models(dropped@));
                proof {
                    extend_new_contains(impacted@, models(dropped@));
                }
                impacted.extend(&dropped);
                let ghost all = models(entries@);
                let ghost names = entry_keys(all);
                let mut i: usize = 0;
                proof {
                    assert(all.take(0) =~= Seq::empty());
                    assert(names.take(0) =~= Seq::empty());
                }
                while i < entries.len()
                    invariant
                        i <= entries@.len(),
                        all == models(entries@),
                        names == entry_keys(all),
                        base.no_duplicates(),
                        jk == multi_key::<LK, LV, JK, FL>(*left_join_keys_fn),
                        pure2::<LK, LV, Vec<JK>, FL>(*left_join_keys_fn),
                        self.left().wf(),
                        self.left().keyed_by(jk),
                        self.left().rows == entries_map(all.take(i as int)),
                        self.output() == old(self).output(),
                        impacted.wf(),
                        impacted@ == extend_new(base, names.take(i as int)),
                    decreases entries@.len() - i,
                {
                    let (key, value) = &entries[i];
                    proof {
                        assert(all.take(i + 1).drop_last() =~= all.take(i as int));
                        assert(all.take(i + 1).last() == (key.model(), value.model()));
                        assert(names.take(i + 1).drop_last() =~= names.take(i as int));
                        assert(names.take(i + 1).last() == key.model());
                        self.left().set_effect(
                            key.model(),
                            value.model(),
                            jk(key.model(), value.model()),
                            jk,
                        );
                    }
                    self.upsert_left(key, value, left_join_keys_fn, impacted);
                    i += 1;
                }
                proof {
                    assert(all.take(i as int) =~= all);
                    assert(names.take(i as int) =~= names);
                    extend_new_contains(base, names);
                    entries_map_keys(all);
                    assert(lists(models(dropped@), side.rows.dom()));
                    assert forall|k: LK::Model| !impacted@.contains(k) implies #[trigger] lookup(
                        self.left().keys,
                        k,
                    ) == lookup(side.keys, k) by {
                        assert(!models(dropped@).contains(k) && !names.contains(k));
                        assert(!side.rows.dom().contains(k));
                        assert(side.rows.contains_key(k) == side.keys.contains_key(k));
                        assert(self.left().rows.contains_key(k) == self.left().keys.contains_key(k));
                    }
                }
            },
            MapDiff::Insert { key, value } => {
                proof {
                    side.set_effect(key.model(), value.model(), jk(key.model(), value.model()), jk);
                    push_new_contains(impacted@, key.model());
                }
                self.upsert_left(key, value, left_join_keys_fn, impacted);
            },
            MapDiff::Update { key, new_value, .. } => {
                proof {
                    side.set_effect(
                        key.model(),
                        new_value.model(),
                        jk(key.model(), new_value.model()),
                        jk,
                    );
                    push_new_contains(impacted@, key.model());
                }
                self.upsert_left(key, new_value, left_join_keys_fn, impacted);
            },
            MapDiff::Remove { key, old_value } => {
                proof {
                    side.set_effect(key.model(), old_value.model(), Seq::empty(), jk);
                    push_new_contains(impacted@, key.model());
                    assert(side.rows.contains_key(key.model()) == side.keys.contains_key(key.model()));
                }
                self.leave_joins(key);
                if self.left_rows.remove(key).is_some() {
                    impacted.insert(key.clone_value());
                }
            },
            MapDiff::Batch { .. } => {},
        }
    }

    fn rights_of<RK: MapKey, RV: CellValue>(&self, right: &RelationIndex<RK, RV, JK>, joins: &Vec<JK>) -> (rows:
        Vec<(RK, RV)>)
        requires
            right.wf(),
        ensures
            models(rows@) == found_rows(right@, models(joins@)),
    {
        let ghost names = models(joins@);
        let mut seen: FxSet<RK> = FxSet::new();
        let mut rows: Vec<(RK, RV)> = Vec::new();
        let mut i: usize = 0;
        proof {
            assert(names.take(0) =~= Seq::empty());
            assert(models(rows@) =~= Seq::empty());
            assert(entry_keys(models(rows@)) =~= Seq::empty());
        }
        while i < joins.len()
            invariant
                i <= joins@.len(),
                names == models(joins@),
                right.wf(),
                models(rows@) == found_rows(right@, names.take(i as int)),
                forall|k: RK::Model| seen@.contains(k) <==> entry_keys(models(rows@)).contains(k),
            decreases joins@.len() - i,
        {
            let ghost before = models(rows@);
            proof {
                assert(names.take(i + 1).drop_last() =~= names.take(i as int));
                assert(names.take(i + 1).last() == joins@[i as int].model());
            }
            match right.rows_of(&joins[i]) {
                Some(matches) => {
                    let ghost all = models(matches@);
                    let mut n: usize = 0;
                    assert(all.take(0) =~= Seq::empty());
                    while n < matches.len()
                        invariant
                            n <= matches@.len(),
                            all == models(matches@),
                            models(rows@) == find_more(before, all.take(n as int)),
                            forall|k: RK::Model|
                                seen@.contains(k) <==> entry_keys(models(rows@)).contains(k),
                        decreases matches@.len() - n,
                    {
                        let ghost held = models(rows@);
                        proof {
                            assert(all.take(n + 1).drop_last() =~= all.take(n as int));
                            assert(all.take(n + 1).last() == matches@[n as int].model());
                        }
                        if seen.insert(matches[n].0.clone_value()) {
                            let copy = matches[n].clone_value();
                            proof {
                                models_push(rows@, copy);
                                let k = copy.0.model();
                                let names2 = entry_keys(held.push(copy.model()));
                                assert(names2 =~= entry_keys(held).push(k));
                                assert forall|x: RK::Model| names2.contains(x) <==> entry_keys(
                                    held,
                                ).contains(x) || x == k by {
                                    if entry_keys(held).contains(x) {
                                        let e = entry_keys(held);
                                        let m = choose|m: int| 0 <= m < e.len() && e[m] == x;
                                        assert(names2[m] == x);
                                    }
                                    assert(names2[held.len() as int] == k);
                                }
                            }
                            rows.push(copy);
                        }
                        n += 1;
                    }
                    assert(all.take(n as int) =~= all);
                },
                None => {
                    assert(right@.matches_of(joins@[i as int].model()) =~= Seq::empty());
                },
            }
            i += 1;
        }
        assert(names.take(i as int) =~= names);
        rows
    }

    /// Brings the kept output of touched left rows up to date, and tells the changes.
    fn recompute_keyed_impacted<RK: MapKey, RV: CellValue, P: StageProject<LK, LV, RK, RV, OV>>(
        &mut self,
        right: &RelationIndex<RK, RV, JK>,
        impacted: &Vec<LK>,
        project: &P,
    ) -> (changes: Vec<MapDiff<LK, OV>>)
        requires
            old(self).left().wf(),
            right.wf(),
            project.lawful(),
        ensures
            final(self).left() == old(self).left(),
            final(self).output() == put_all(
                old(self).output(),
                models(impacted@),
                multi_joined(
                    old(self).left(),
                    right@,
                    projection::<LK, LV, RK, RV, OV, P>(*project),
                ),
            ),
            flat(changes@),
            steps_of(changes@) == delta(
                old(self).output(),
                models(impacted@),
                multi_joined(
                    old(self).left(),
                    right@,
                    projection::<LK, LV, RK, RV, OV, P>(*project),
                ),
            ),
    {
        let ghost p = projection::<LK, LV, RK, RV, OV, P>(*project);
        let ghost want = multi_joined(self.left(), right@, p);
        let ghost all = models(impacted@);
        let mut changes: Vec<MapDiff<LK, OV>> = Vec::new();
        let mut i: usize = 0;
        assert(all.take(0) =~= Seq::empty());
        while i < impacted.len()
            invariant
                i <= impacted@.len(),
                all == models(impacted@),
                right.wf(),
                project.lawful(),
                p == projection::<LK, LV, RK, RV, OV, P>(*project),
                self.left() == old(self).left(),
                self.left().wf(),
                want == multi_joined(self.left(), right@, p),
                self.output() == put_all(old(self).output(), all.take(i as int), want),
                flat(changes@),
                steps_of(changes@) == delta(old(self).output(), all.take(i as int), want),
            decreases impacted@.len() - i,
        {
            let key = &impacted[i];
            proof {
                assert(all.take(i + 1).drop_last() =~= all.take(i as int));
                assert(all.take(i + 1).last() == key.model());
                assert(self.left().rows.contains_key(key.model()) == self.left().keys.contains_key(
                    key.model(),
                ));
            }
            let desired: Option<OV> = match self.left_rows.get(key) {
                Some(value) => match self.left_join_keys.get(key) {
                    Some(joins) => {
                        let rows = self.rights_of(right, joins);
                        project.project(key, value, rows.as_slice())
                    },
                    None => None,
                },
                None => None,
            };
            commit_keyed_value(&mut self.output_cache, key.clone_value(), desired, &mut changes);
            i += 1;
        }
        assert(all.take(i as int) =~= all);
        changes
    }

    /// Follows a diff of the left rows, and tells how the output changes.
    pub fn apply_left<
        RK: MapKey,
        RV: CellValue,
        FL: RowFn<LK, LV, Vec<JK>>,
        P: StageProject<LK, LV, RK, RV, OV>,
    >(
        &mut self,
        right: &RelationIndex<RK, RV, JK>,
        diff: &MapDiff<LK, LV>,
        left_join_keys_fn: &FL,
        project: &P,
    ) -> (changes: Vec<MapDiff<LK, OV>>)
        requires
            right.wf(),
            pure2::<LK, LV, Vec<JK>, FL>(*left_join_keys_fn),
            project.lawful(),
            old(self).joins(right@, projection::<LK, LV, RK, RV, OV, P>(*project)),
        ensures
            final(self).left().rows == replay(old(self).left().rows, diff.steps()),
            old(self).left().keyed_by(multi_key::<LK, LV, JK, FL>(*left_join_keys_fn)) ==> final(self).left().keyed_by(multi_key::<LK, LV, JK, FL>(*left_join_keys_fn)),
            final(self).joins(right@, projection::<LK, LV, RK, RV, OV, P>(*project)),
            flat(changes@),
            exists|keys: Seq<LK::Model>|
                #![trigger delta(old(self).output(), keys, final(self).output())]
                touches_all(old(self).left().rows, diff.steps(), Seq::empty(), keys) && steps_of(
                    changes@,
                ) == delta(old(self).output(), keys, final(self).output()),
            fits_all(old(self).output(), steps_of(changes@)),
            replay(old(self).output(), steps_of(changes@)) == final(self).output(),
    {
        let ghost p = projection::<LK, LV, RK, RV, OV, P>(*project);
        let ghost jk = multi_key::<LK, LV, JK, FL>(*left_join_keys_fn);
        let ghost side = self.left();
        let ghost out = self.output();
        let ghost steps = diff.steps();
        let mut impacted: OrderedSet<LK> = OrderedSet::new();
        let leaves = diff.leaves();
        let mut i: usize = 0;
        assert(steps.take(0) =~= Seq::empty());
        while i < leaves.len()
            invariant
                i <= leaves@.len(),
                all_leaves(leaves@),
                atoms(leaves@) == steps,
                pure2::<LK, LV, Vec<JK>, FL>(*left_join_keys_fn),
                jk == multi_key::<LK, LV, JK, FL>(*left_join_keys_fn),
                self.left().wf(),
                side.keyed_by(jk) ==> self.left().keyed_by(jk),
                self.left().rows == replay(side.rows, steps.take(i as int)),
                self.output() == out,
                impacted.wf(),
                touches_all(side.rows, steps.take(i as int), Seq::empty(), impacted@),
                forall|k: LK::Model|
                    !impacted@.contains(k) ==> #[trigger] lookup(self.left().keys, k) == lookup(
                        side.keys,
                        k,
                    ),
                forall|k: LK::Model|
                    !impacted@.contains(k) ==> #[trigger] lookup(self.left().rows, k) == lookup(
                        side.rows,
                        k,
                    ),
            decreases leaves@.len() - i,
        {
            let ghost mid = impacted@;
            let ghost before = self.left();
            let leaf = leaves[i];
            proof {
                assert(steps[i as int] == leaf.atom());
                assert(steps.take(i + 1).drop_last() =~= steps.take(i as int));
                assert(steps.take(i + 1).last() == steps[i as int]);
                impacted.distinct();
            }
            self.apply_left_change(leaf, left_join_keys_fn, &mut impacted);
            proof {
                touches_effect(before.rows, leaf.atom(), mid, impacted@);
                assert(touches(
                    replay(side.rows, steps.take(i + 1).drop_last()),
                    steps.take(i + 1).last(),
                    mid,
                    impacted@,
                ));
                assert forall|k: LK::Model| !impacted@.contains(k) implies #[trigger] lookup(
                    self.left().keys,
                    k,
                ) == lookup(side.keys, k) by {
                    assert(!mid.contains(k));
                    assert(lookup(before.keys, k) == lookup(side.keys, k));
                }
                assert forall|k: LK::Model| !impacted@.contains(k) implies #[trigger] lookup(
                    self.left().rows,
                    k,
                ) == lookup(side.rows, k) by {
                    assert(!mid.contains(k));
                    assert(lookup(before.rows, k) == lookup(side.rows, k));
                }
            }
            i += 1;
        }
        proof {
            assert(steps.take(i as int) =~= steps);
            impacted.distinct();
        }
        let keys = impacted.drain();
        let ghost want = multi_joined(self.left(), right@, p);
        let changes = self.recompute_keyed_impacted(right, &keys, project);
        proof {
            let names = models(keys@);
            assert forall|k: LK::Model| !names.contains(k) implies #[trigger] lookup(out, k) == lookup(
                want,
                k,
            ) by {
                multi_joined_lookup(side, right@, p, k);
                multi_joined_lookup(self.left(), right@, p, k);
                assert(lookup(self.left().rows, k) == lookup(side.rows, k));
                assert(lookup(self.left().keys, k) == lookup(side.keys, k));
                assert(side.rows.contains_key(k) == side.keys.contains_key(k));
                assert(self.left().rows.contains_key(k) == self.left().keys.contains_key(k));
            }
            put_all_covers(out, names, want);
            delta_replays(out, names, want);
            assert(steps_of(changes@) == delta(out, names, self.output()));
        }
        changes
    }

    /// Lets a diff change the right rows, and tells how the output changes.
    pub fn apply_right<
        RK: MapKey,
        RV: CellValue,
        FR: RightJoinKey<RK, RV, JK>,
        P: StageProject<LK, LV, RK, RV, OV>,
    >(
        &mut self,
        right: &mut RelationIndex<RK, RV, JK>,
        diff: &MapDiff<RK, RV>,
        right_join_key: &FR,
        project: &P,
    ) -> (changes: Vec<MapDiff<LK, OV>>)
        requires
            old(right).wf(),
            right_join_key.lawful(),
            project.lawful(),
            old(self).joins(old(right)@, projection::<LK, LV, RK, RV, OV, P>(*project)),
        ensures
            final(right).wf(),
            final(right)@ == old(right)@.run(diff.steps(), right_key::<RK, RV, JK, FR>(*right_join_key)),
            final(self).left() == old(self).left(),
            final(self).joins(final(right)@, projection::<LK, LV, RK, RV, OV, P>(*project)),
            flat(changes@),
            exists|keys: Seq<LK::Model>|
                #![trigger delta(old(self).output(), keys, final(self).output())]
                keys.no_duplicates() && steps_of(changes@) == delta(
                    old(self).output(),
                    keys,
                    final(self).output(),
                ),
            fits_all(old(self).output(), steps_of(changes@)),
            replay(old(self).output(), steps_of(changes@)) == final(self).output(),
    {
        let ghost p = projection::<LK, LV, RK, RV, OV, P>(*project);
        let ghost jk = right_key::<RK, RV, JK, FR>(*right_join_key);
        let ghost before = right@;
        let ghost side = self.left();
        let ghost out = self.output();
        let mut changed: OrderedSet<JK> = OrderedSet::new();
        let mut impacted: OrderedSet<LK> = OrderedSet::new();
        proof {
            right.side_wf();
        }
        right.apply_diff(diff, right_join_key, &mut changed);
        let joins = changed.drain();
        let ghost names = models(joins@);
        let mut i: usize = 0;
        proof {
            before.joins_run_effect(diff.steps(), jk, Seq::empty(), names);
            assert(names.take(0) =~= Seq::empty());
        }
        while i < joins.len()
            invariant
                i <= joins@.len(),
                names == models(joins@),
                side == self.left(),
                side.wf(),
                self.output() == out,
                impacted.wf(),
                forall|j: JK::Model, k: LK::Model| #[trigger]
                    holds(side.members, j, k) && names.take(i as int).contains(j)
                        ==> impacted@.contains(k),
            decreases joins@.len() - i,
        {
            let ghost had = impacted@;
            proof {
                impacted.distinct();
                let part = names.take(i + 1);
                assert(part.drop_last() =~= names.take(i as int));
                assert(part.last() == joins@[i as int].model());
                drop_last_contains(part);
            }
            match self.join_to_left.get(&joins[i]) {
                Some(members) => {
                    proof {
                        extend_new_contains(had, models(members@));
                    }
                    impacted.extend(members);
                },
                None => {},
            }
            i += 1;
        }
        assert(names.take(i as int) =~= names);
        proof {
            impacted.distinct();
        }
        let keys = impacted.drain();
        let ghost want = multi_joined(side, right@, p);
        let changes = self.recompute_keyed_impacted(right, &keys, project);
        proof {
            let touched = models(keys@);
            assert forall|k: LK::Model| !touched.contains(k) implies #[trigger] lookup(out, k)
                == lookup(want, k) by {
                multi_joined_lookup(side, before, p, k);
                multi_joined_lookup(side, right@, p, k);
                if side.rows.contains_key(k) {
                    assert(side.keys.contains_key(k));
                    assert forall|j: JK::Model| #[trigger] side.keys[k].contains(j) implies before.matches_of(j)
                        == right@.matches_of(j) by {
                        assert(holds(side.members, j, k));
                        assert(!names.contains(j));
                        assert(before.run(diff.steps(), jk).matches_of(j) == before.matches_of(j));
                    }
                    found_rows_same(before, right@, side.keys[k]);
                }
            }
            put_all_covers(out, touched, want);
            delta_replays(out, touched, want);
            assert(steps_of(changes@) == delta(out, touched, self.output()));
        }
        changes
    }
}

/// Every row that a change changes is among the keys that it touches.
proof fn touches_effect<K, V>(rows: Map<K, V>, change: Change<K, V>, from: Seq<K>, to: Seq<K>)
    requires
        from.no_duplicates(),
        touches(rows, change, from, to),
    ensures
        to.no_duplicates(),
        forall|k: K| from.contains(k) ==> to.contains(k),
        forall|k: K|
            !to.contains(k) ==> #[trigger] lookup(crate::diff::apply_change(rows, change), k) == lookup(
                rows,
                k,
            ),
{
    match change {
        Change::Initial { entries } => {
            let dropped = choose|dropped: Seq<K>| #[trigger]
                lists(dropped, rows.dom()) && to == extend_new(
                    extend_new(from, dropped),
                    entry_keys(entries),
                );
            extend_new_contains(from, dropped);
            extend_new_contains(extend_new(from, dropped), entry_keys(entries));
            entries_map_keys(entries);
            assert forall|k: K| !to.contains(k) implies #[trigger] lookup(
                crate::diff::apply_change(rows, change),
                k,
            ) == lookup(rows, k) by {
                assert(!dropped.contains(k) && !entry_keys(entries).contains(k));
                assert(!rows.dom().contains(k));
                assert(!entries_map(entries).contains_key(k));
            }
        },
        Change::Insert { key, value } => push_new_contains(from, key),
        Change::Remove { key, old_value } => push_new_contains(from, key),
        Change::Update { key, old_value, new_value } => push_new_contains(from, key),
    }
}

/// A join in which a left row has any number of join keys, with its functions and its right rows.
#[verifier::reject_recursive_types(LK)]
#[verifier::reject_recursive_types(LV)]
#[verifier::reject_recursive_types(RK)]
#[verifier::reject_recursive_types(RV)]
#[verifier::reject_recursive_types(JK)]
#[verifier::reject_recursive_types(OV)]
pub struct MultiJoinRuntime<
    LK: MapKey,
    LV: CellValue,
    RK: MapKey,
    RV: CellValue,
    JK: MapKey,
    OV: CellValue,
    FL,
    FR,
    P,
> {
    pub join: MultiJoin<LK, LV, JK, OV>,
    pub right: RelationIndex<RK, RV, JK>,
    pub left_join_keys: FL,
    pub right_join_key: FR,
    pub project: P,
}

/// A join of two sources without rows.
pub fn install_keyed_multi_join_runtime_via_query<
    LK: MapKey,
    LV: CellValue,
    RK: MapKey,
    RV: CellValue,
    JK: MapKey,
    OV: CellValue,
    FL: RowFn<LK, LV, Vec<JK>>,
    FR: RightJoinKey<RK, RV, JK>,
    P: StageProject<LK, LV, RK, RV, OV>,
>(left_join_keys: FL, right_join_key: FR, project: P) -> (runtime: MultiJoinRuntime<
    LK,
    LV,
    RK,
    RV,
    JK,
    OV,
    FL,
    FR,
    P,
>)
    requires
        pure2::<LK, LV, Vec<JK>, FL>(left_join_keys),
        right_join_key.lawful(),
        project.lawful(),
    ensures
        runtime.wf(),
        runtime.left_join_keys == left_join_keys,
        runtime.right_join_key == right_join_key,
        runtime.project == project,
        runtime.join.left().rows == Map::<LK::Model, LV::Model>::empty(),
        runtime.right@ == empty_side::<RK::Model, RV::Model, JK::Model>(),
{
    let runtime = MultiJoinRuntime {
        join: MultiJoin::new(),
        right: RelationIndex::new(),
        left_join_keys,
        right_join_key,
        project,
    };
    assert(runtime.join.output() =~= multi_joined(
        runtime.join.left(),
        runtime.right@,
        projection::<LK, LV, RK, RV, OV, P>(project),
    ));
    runtime
}

impl<
    LK: MapKey,
    LV: CellValue,
    RK: MapKey,
    RV: CellValue,
    JK: MapKey,
    OV: CellValue,
    FL: RowFn<LK, LV, Vec<JK>>,
    FR: RightJoinKey<RK, RV, JK>,
    P: StageProject<LK, LV, RK, RV, OV>,
> MultiJoinRuntime<LK, LV, RK, RV, JK, OV, FL, FR, P> {
    /// The output is the join of the rows, and each left row has the join keys that its function
    /// gives.
    pub open spec fn wf(&self) -> bool {
        &&& pure2::<LK, LV, Vec<JK>, FL>(self.left_join_keys)
        &&& self.right_join_key.lawful()
        &&& self.project.lawful()
        &&& self.right.wf()
        &&& self.join.joins(self.right@, projection::<LK, LV, RK, RV, OV, P>(self.project))
        &&& self.join.left().keyed_by(multi_key::<LK, LV, JK, FL>(self.left_join_keys))
    }

    /// Follows a diff of the left rows, and tells how the output changes as one batch, or not at all
    /// where nothing changes.
    pub fn apply_left(&mut self, diff: &MapDiff<LK, LV>) -> (emitted: Option<MapDiff<LK, OV>>)
        requires
            old(self).wf(),
        ensures
            final(self).wf(),
            final(self).left_join_keys == old(self).left_join_keys,
            final(self).right_join_key == old(self).right_join_key,
            final(self).project == old(self).project,
            final(self).right == old(self).right,
            final(self).join.left().rows == replay(old(self).join.left().rows, diff.steps()),
            exists|keys: Seq<LK::Model>|
                #![trigger delta(old(self).join.output(), keys, final(self).join.output())]
                touches_all(old(self).join.left().rows, diff.steps(), Seq::empty(), keys) && emits(
                    emitted,
                    delta(old(self).join.output(), keys, final(self).join.output()),
                ),
            fits_all(old(self).join.output(), emitted_changes(emitted)),
            replay(old(self).join.output(), emitted_changes(emitted)) == final(self).join.output(),
    {
        let changes = self.join.apply_left(&self.right, diff, &self.left_join_keys, &self.project);
        batch_of(changes)
    }

    /// Follows a diff of the right rows, and tells how the output changes as one batch, or not at
    /// all where nothing changes.
    pub fn apply_right(&mut self, diff: &MapDiff<RK, RV>) -> (emitted: Option<MapDiff<LK, OV>>)
        requires
            old(self).wf(),
        ensures
            final(self).wf(),
            final(self).left_join_keys == old(self).left_join_keys,
            final(self).right_join_key == old(self).right_join_key,
            final(self).project == old(self).project,
            final(self).join.left() == old(self).join.left(),
            final(self).right@ == old(self).right@.run(
                diff.steps(),
                right_key::<RK, RV, JK, FR>(old(self).right_join_key),
            ),
            exists|keys: Seq<LK::Model>|
                #![trigger delta(old(self).join.output(), keys, final(self).join.output())]
                keys.no_duplicates() && emits(
                    emitted,
                    delta(old(self).join.output(), keys, final(self).join.output()),
                ),
            fits_all(old(self).join.output(), emitted_changes(emitted)),
            replay(old(self).join.output(), emitted_changes(emitted)) == final(self).join.output(),
    {
        let changes = self.join.apply_right(
            &mut self.right,
            diff,
            &self.right_join_key,
            &self.project,
        );
        batch_of(changes)
    }
}

/// A join in which a left row has any number of join keys has followed its sources: it has the rows
/// that they have led to, and what it has told, replayed on no rows, leads to its output.
pub open spec fn multi_join_follows<
    LK: MapKey,
    LV: CellValue,
    RK: MapKey,
    RV: CellValue,
    JK: MapKey,
    OV: CellValue,
    FL: RowFn<LK, LV, Vec<JK>>,
    FR: RightJoinKey<RK, RV, JK>,
    P: StageProject<LK, LV, RK, RV, OV>,
>(
    runtime: MultiJoinRuntime<LK, LV, RK, RV, JK, OV, FL, FR, P>,
    left: Seq<Change<LK::Model, LV::Model>>,
    right: Seq<Change<RK::Model, RV::Model>>,
    told: Seq<Change<LK::Model, OV::Model>>,
) -> bool {
    &&& runtime.wf()
    &&& runtime.join.left().rows == rows_of(left)
    &&& runtime.right@ == side_of(right, right_key::<RK, RV, JK, FR>(runtime.right_join_key))
    &&& fits_all(Map::empty(), told)
    &&& rows_of(told) == runtime.join.output()
}

/// A new join has followed sources that have told nothing, and has told nothing.
pub proof fn multi_join_begins<
    LK: MapKey,
    LV: CellValue,
    RK: MapKey,
    RV: CellValue,
    JK: MapKey,
    OV: CellValue,
    FL: RowFn<LK, LV, Vec<JK>>,
    FR: RightJoinKey<RK, RV, JK>,
    P: StageProject<LK, LV, RK, RV, OV>,
>(runtime: MultiJoinRuntime<LK, LV, RK, RV, JK, OV, FL, FR, P>)
    requires
        runtime.wf(),
        runtime.join.left().rows == Map::<LK::Model, LV::Model>::empty(),
        runtime.right@ == empty_side::<RK::Model, RV::Model, JK::Model>(),
    ensures
        multi_join_follows(runtime, Seq::empty(), Seq::empty(), Seq::empty()),
{
    assert(runtime.join.output() =~= Map::empty());
}

/// A join that takes a diff of its left source goes on following its sources.
pub proof fn multi_join_follows_left<
    LK: MapKey,
    LV: CellValue,
    RK: MapKey,
    RV: CellValue,
    JK: MapKey,
    OV: CellValue,
    FL: RowFn<LK, LV, Vec<JK>>,
    FR: RightJoinKey<RK, RV, JK>,
    P: StageProject<LK, LV, RK, RV, OV>,
>(
    before: MultiJoinRuntime<LK, LV, RK, RV, JK, OV, FL, FR, P>,
    left: Seq<Change<LK::Model, LV::Model>>,
    right: Seq<Change<RK::Model, RV::Model>>,
    told: Seq<Change<LK::Model, OV::Model>>,
    steps: Seq<Change<LK::Model, LV::Model>>,
    after: MultiJoinRuntime<LK, LV, RK, RV, JK, OV, FL, FR, P>,
    more: Seq<Change<LK::Model, OV::Model>>,
)
    requires
        multi_join_follows(before, left, right, told),
        after.wf(),
        after.right_join_key == before.right_join_key,
        after.right == before.right,
        after.join.left().rows == replay(before.join.left().rows, steps),
        fits_all(before.join.output(), more),
        replay(before.join.output(), more) == after.join.output(),
    ensures
        multi_join_follows(after, left + steps, right, told + more),
{
    replay_concat(Map::empty(), left, steps);
    replay_concat(Map::empty(), told, more);
}

/// A join that takes a diff of its right source goes on following its sources.
pub proof fn multi_join_follows_right<
    LK: MapKey,
    LV: CellValue,
    RK: MapKey,
    RV: CellValue,
    JK: MapKey,
    OV: CellValue,
    FL: RowFn<LK, LV, Vec<JK>>,
    FR: RightJoinKey<RK, RV, JK>,
    P: StageProject<LK, LV, RK, RV, OV>,
>(
    before: MultiJoinRuntime<LK, LV, RK, RV, JK, OV, FL, FR, P>,
    left: Seq<Change<LK::Model, LV::Model>>,
    right: Seq<Change<RK::Model, RV::Model>>,
    told: Seq<Change<LK::Model, OV::Model>>,
    steps: Seq<Change<RK::Model, RV::Model>>,
    after: MultiJoinRuntime<LK, LV, RK, RV, JK, OV, FL, FR, P>,
    more: Seq<Change<LK::Model, OV::Model>>,
)
    requires
        multi_join_follows(before, left, right, told),
        after.wf(),
        after.right_join_key == before.right_join_key,
        after.join.left() == before.join.left(),
        after.right@ == before.right@.run(steps, right_key::<RK, RV, JK, FR>(before.right_join_key)),
        fits_all(before.join.output(), more),
        replay(before.join.output(), more) == after.join.output(),
    ensures
        multi_join_follows(after, left, right + steps, told + more),
{
    empty_side::<RK::Model, RV::Model, JK::Model>().run_concat(
        right,
        steps,
        right_key::<RK, RV, JK, FR>(before.right_join_key),
    );
    replay_concat(Map::empty(), told, more);
}

/// What a join has told, replayed on no rows, gives for each row of the left source what the join
/// projects from it and from `matched`, the rows of the right source that have one of its join keys, each
/// of them once however many of the keys reach it; and it gives nothing else.
pub proof fn multi_join_of_sources<
    LK: MapKey,
    LV: CellValue,
    RK: MapKey,
    RV: CellValue,
    JK: MapKey,
    OV: CellValue,
    FL: RowFn<LK, LV, Vec<JK>>,
    FR: RightJoinKey<RK, RV, JK>,
    P: StageProject<LK, LV, RK, RV, OV>,
>(
    runtime: MultiJoinRuntime<LK, LV, RK, RV, JK, OV, FL, FR, P>,
    left: Seq<Change<LK::Model, LV::Model>>,
    right: Seq<Change<RK::Model, RV::Model>>,
    told: Seq<Change<LK::Model, OV::Model>>,
    key: LK::Model,
) -> (matched: Seq<(RK::Model, RV::Model)>)
    requires
        multi_join_follows(runtime, left, right, told),
    ensures
        lookup(rows_of(told), key) == (match lookup(rows_of(left), key) {
            Some(value) => (projection::<LK, LV, RK, RV, OV, P>(runtime.project))(
                key,
                value,
                matched,
            ),
            None => None,
        }),
        entry_keys(matched).no_duplicates(),
        rows_of(left).contains_key(key) ==> forall|r: RK::Model| #[trigger]
            lookup(entries_map(matched), r) == (match lookup(rows_of(right), r) {
                Some(row) => match (right_key::<RK, RV, JK, FR>(runtime.right_join_key))(r, row) {
                    Some(j) => if (multi_key::<LK, LV, JK, FL>(runtime.left_join_keys))(
                        key,
                        rows_of(left)[key],
                    ).contains(j) {
                        Some(row)
                    } else {
                        None
                    },
                    None => None,
                },
                None => None,
            }),
{
    let side = runtime.join.left();
    let rights = runtime.right@;
    let rkey = right_key::<RK, RV, JK, FR>(runtime.right_join_key);
    side_of_source(right, rkey);
    multi_joined_lookup(side, rights, projection::<LK, LV, RK, RV, OV, P>(runtime.project), key);
    if rows_of(left).contains_key(key) {
        let joins = side.keys[key];
        let matched = found_rows(rights, joins);
        found_rows_once(rights, joins);
        assert(joins == (multi_key::<LK, LV, JK, FL>(runtime.left_join_keys))(key, rows_of(left)[key]));
        assert forall|r: RK::Model| #[trigger]
            lookup(entries_map(matched), r) == (match lookup(rows_of(right), r) {
                Some(row) => match rkey(r, row) {
                    Some(j) => if joins.contains(j) {
                        Some(row)
                    } else {
                        None
                    },
                    None => None,
                },
                None => None,
            }) by {
            let _ = lookup(rights.rows, r);
            if rights.rows.contains_key(r) {
                assert(rkey(r, rights.rows[r]) == Some(rights.keys[r]));
            }
        }
        matched
    } else {
        assert(entry_keys(Seq::<(RK::Model, RV::Model)>::empty()) =~= Seq::empty());
        Seq::empty()
    }
}

/// Rows found further are those that were not found before, behind the others, in their order.
pub proof fn found_further<K, V>(found: Seq<(K, V)>, rows: Seq<(K, V)>)
    requires
        entry_keys(rows).no_duplicates(),
    ensures
        find_more(found, rows) == found + rows.filter(
            |r: (K, V)| !entry_keys(found).contains(r.0),
        ),
    decreases rows.len(),
{
    reveal(Seq::filter);
    let fresh = |r: (K, V)| !entry_keys(found).contains(r.0);
    if rows.len() == 0 {
        assert(found + rows.filter(fresh) =~= found);
    } else {
        let rest = rows.drop_last();
        let last = rows.last();
        assert(entry_keys(rest) =~= entry_keys(rows).drop_last());
        found_further(found, rest);
        let sofar = find_more(found, rest);
        let kept = rest.filter(fresh);
        assert(entry_keys(rows)[rows.len() - 1] == last.0);
        assert(entry_keys(sofar).contains(last.0) <==> entry_keys(found).contains(last.0)) by {
            if entry_keys(found).contains(last.0) {
                let i = choose|i: int| 0 <= i < found.len() && entry_keys(found)[i] == last.0;
                assert(entry_keys(sofar)[i] == last.0);
            }
            if entry_keys(sofar).contains(last.0) {
                let i = choose|i: int| 0 <= i < sofar.len() && entry_keys(sofar)[i] == last.0;
                if i < found.len() {
                    assert(entry_keys(found)[i] == last.0);
                } else {
                    let r = kept[i - found.len()];
                    rest.lemma_filter_contains_rev(fresh, r);
                    let n = choose|n: int| 0 <= n < rest.len() && rest[n] == r;
                    assert(entry_keys(rows)[n] == last.0);
                }
            }
        }
        if fresh(last) {
            assert(found + kept.push(last) =~= (found + kept).push(last));
        }
    }
}

/// The rows that have one of several join keys come in the order of the join keys, those of one join key
/// in their order, without those that an earlier join key has reached.
pub proof fn found_in_turn<RK, RV, JK>(right: Side<RK, RV, JK>, joins: Seq<JK>, i: int)
    requires
        right.wf(),
        0 <= i < joins.len(),
    ensures
        found_rows(right, joins.take(0)).len() == 0,
        found_rows(right, joins.take(i + 1)) == found_rows(right, joins.take(i)) + right.matches_of(
            joins[i],
        ).filter(
            |r: (RK, RV)| !entry_keys(found_rows(right, joins.take(i))).contains(r.0),
        ),
        found_rows(right, joins.take(joins.len() as int)) == found_rows(right, joins),
{
    assert(joins.take(i + 1).drop_last() =~= joins.take(i));
    assert(joins.take(i + 1).last() == joins[i]);
    assert(joins.take(joins.len() as int) =~= joins);
    assert(entry_keys(right.matches_of(joins[i])) =~= right.members_of(joins[i]));
    assert(right.members_of(joins[i]).no_duplicates());
    found_further(found_rows(right, joins.take(i)), right.matches_of(joins[i]));
}

} // verus!
