//! One side of a join: its rows, and for each join key the rows that have it, in order.
use vstd::prelude::*;

use crate::diff::{all_leaves, atoms, entries_map, replay, Change, MapDiff};
use crate::func::{call2, image2, pure2, RowFn};
use crate::fx::{lists, lookup, FxMap};
use crate::ordered_set::{extend_new, extend_new_contains, push_new, push_new_contains, OrderedSet};
use crate::value::{models, models_push, CellValue, MapKey};

verus! {

/// One side of a join: the rows, the join key of each, and the keys of the rows that have a join
/// key, in the order in which they came to have it.
#[verifier::reject_recursive_types(K)]
#[verifier::reject_recursive_types(J)]
pub struct Side<K, V, J> {
    pub rows: Map<K, V>,
    pub keys: Map<K, J>,
    pub members: Map<J, Seq<K>>,
}

/// A sequence without an element.
pub open spec fn without<K>(s: Seq<K>, x: K) -> Seq<K>
    decreases s.len(),
{
    if s.len() == 0 {
        Seq::empty()
    } else if s.last() == x {
        without(s.drop_last(), x)
    } else {
        without(s.drop_last(), x).push(s.last())
    }
}

pub proof fn without_contains<K>(s: Seq<K>, x: K)
    ensures
        forall|y: K| without(s, x).contains(y) <==> s.contains(y) && y != x,
        s.no_duplicates() ==> without(s, x).no_duplicates(),
        without(s, x).len() <= s.len(),
        !s.contains(x) ==> without(s, x) == s,
    decreases s.len(),
{
    if s.len() > 0 {
        let rest = s.drop_last();
        without_contains(rest, x);
        assert forall|y: K| without(s, x).contains(y) <==> s.contains(y) && y != x by {
            assert(s.contains(y) <==> rest.contains(y) || y == s.last()) by {
                if s.contains(y) {
                    let i = choose|i: int| 0 <= i < s.len() && s[i] == y;
                    if i < s.len() - 1 {
                        assert(rest[i] == y);
                    }
                }
                if rest.contains(y) {
                    let i = choose|i: int| 0 <= i < rest.len() && rest[i] == y;
                    assert(s[i] == y);
                }
                if y == s.last() {
                    assert(s[s.len() - 1] == y);
                }
            }
            if s.last() != x {
                let w = without(rest, x);
                if w.contains(y) {
                    let i = choose|i: int| 0 <= i < w.len() && w[i] == y;
                    assert(w.push(s.last())[i] == y);
                }
                if y == s.last() {
                    assert(w.push(s.last())[w.len() as int] == y);
                }
            }
        }
        if s.no_duplicates() {
            assert(!rest.contains(s.last()));
        }
        if !s.contains(x) {
            assert(s[s.len() - 1] == s.last());
            assert(!rest.contains(x)) by {
                if rest.contains(x) {
                    let i = choose|i: int| 0 <= i < rest.len() && rest[i] == x;
                    assert(s[i] == x);
                }
            }
            assert(rest.push(s.last()) =~= s);
        }
    } else {
        assert(without(s, x) =~= s);
    }
}

/// `k` is among the members of the join key `j`.
pub open spec fn holds<J, K>(members: Map<J, Seq<K>>, j: J, k: K) -> bool {
    members.contains_key(j) && members[j].contains(k)
}

/// A member put at the end of the members of a join key, unless it is among them.
pub open spec fn add_member<J, K>(members: Map<J, Seq<K>>, j: J, k: K) -> Map<J, Seq<K>> {
    members.insert(j, if members.contains_key(j) { push_new(members[j], k) } else { seq![k] })
}

/// A member taken from the members of a join key; a join key without members is dropped.
pub open spec fn drop_member<J, K>(members: Map<J, Seq<K>>, j: J, k: K) -> Map<J, Seq<K>> {
    if members.contains_key(j) {
        if without(members[j], k).len() == 0 {
            members.remove(j)
        } else {
            members.insert(j, without(members[j], k))
        }
    } else {
        members
    }
}

/// The empty side.
pub open spec fn empty_side<K, V, J>() -> Side<K, V, J> {
    Side { rows: Map::empty(), keys: Map::empty(), members: Map::empty() }
}

impl<K, V, J> Side<K, V, J> {
    /// The rows and the join keys agree with the members of each join key.
    pub open spec fn wf(self) -> bool {
        &&& forall|k: K| #[trigger] self.rows.contains_key(k) == self.keys.contains_key(k)
        &&& forall|j: J| #[trigger]
            self.members.contains_key(j) ==> self.members[j].len() > 0
                && self.members[j].no_duplicates()
        &&& forall|j: J, k: K| #[trigger]
            self.member(j, k) == (self.keys.contains_key(k) && self.keys[k] == j)
    }

    /// The row of `k` is among those that have the join key `j`.
    pub open spec fn member(self, j: J, k: K) -> bool {
        holds(self.members, j, k)
    }

    /// The keys of the rows that have a join key, in order.
    pub open spec fn members_of(self, j: J) -> Seq<K> {
        if self.members.contains_key(j) {
            self.members[j]
        } else {
            Seq::empty()
        }
    }

    /// The rows that have a join key, in order.
    pub open spec fn matches_of(self, j: J) -> Seq<(K, V)> {
        self.members_of(j).map_values(|k: K| (k, self.rows[k]))
    }

    /// Each row has the join key that `jk` gives for it.
    pub open spec fn keyed_by(self, jk: spec_fn(K, V) -> Option<J>) -> bool {
        forall|k: K| #[trigger]
            self.rows.contains_key(k) ==> jk(k, self.rows[k]) == Some(self.keys[k])
    }

    /// The members of each join key once a row has left the one that it had.
    pub open spec fn detached(self, k: K) -> Map<J, Seq<K>> {
        if self.keys.contains_key(k) {
            drop_member(self.members, self.keys[k], k)
        } else {
            self.members
        }
    }

    /// The side without the row of a key.
    pub open spec fn dropped(self, k: K) -> Side<K, V, J> {
        Side { rows: self.rows.remove(k), keys: self.keys.remove(k), members: self.detached(k) }
    }

    /// The side with a row set. A row that keeps its join key keeps its place among the members; a
    /// row with another join key goes to the end of that one's; a row with none is not kept.
    pub open spec fn set(self, k: K, v: V, join: Option<J>) -> Side<K, V, J> {
        match join {
            Some(j) => Side {
                rows: self.rows.insert(k, v),
                keys: self.keys.insert(k, j),
                members: if lookup(self.keys, k) == Some(j) {
                    self.members
                } else {
                    add_member(self.detached(k), j, k)
                },
            },
            None => self.dropped(k),
        }
    }

    /// The join keys whose rows change when a row is set: the one it had, where it differs, and the
    /// one that it gets.
    pub open spec fn joins_of_set(self, k: K, join: Option<J>) -> Seq<J> {
        let had = lookup(self.keys, k);
        (if had is Some && had != join {
            seq![had->Some_0]
        } else {
            Seq::empty()
        }) + (match join {
            Some(j) => seq![j],
            None => Seq::empty(),
        })
    }

    /// The side with entries set in turn.
    pub open spec fn load(self, entries: Seq<(K, V)>, jk: spec_fn(K, V) -> Option<J>) -> Side<
        K,
        V,
        J,
    >
        decreases entries.len(),
    {
        if entries.len() == 0 {
            self
        } else {
            let (k, v) = entries.last();
            self.load(entries.drop_last(), jk).set(k, v, jk(k, v))
        }
    }

    /// What a change of the rows makes of the side.
    pub open spec fn step(self, change: Change<K, V>, jk: spec_fn(K, V) -> Option<J>) -> Side<
        K,
        V,
        J,
    > {
        match change {
            Change::Initial { entries } => empty_side::<K, V, J>().load(entries, jk),
            Change::Insert { key, value } => self.set(key, value, jk(key, value)),
            Change::Remove { key, old_value } => self.dropped(key),
            Change::Update { key, old_value, new_value } => self.set(key, new_value, jk(key, new_value)),
        }
    }

    /// What changes of the rows in order make of the side.
    pub open spec fn run(self, steps: Seq<Change<K, V>>, jk: spec_fn(K, V) -> Option<J>) -> Side<
        K,
        V,
        J,
    >
        decreases steps.len(),
    {
        if steps.len() == 0 {
            self
        } else {
            self.run(steps.drop_last(), jk).step(steps.last(), jk)
        }
    }
}

pub proof fn empty_side_wf<K, V, J>(jk: spec_fn(K, V) -> Option<J>)
    ensures
        empty_side::<K, V, J>().wf(),
        empty_side::<K, V, J>().keyed_by(jk),
{
}

pub proof fn drop_member_effect<J, K>(members: Map<J, Seq<K>>, j: J, k: K)
    requires
        forall|i: J| #[trigger]
            members.contains_key(i) ==> members[i].len() > 0 && members[i].no_duplicates(),
    ensures
        forall|i: J| #[trigger]
            drop_member(members, j, k).contains_key(i) ==> drop_member(members, j, k)[i].len() > 0
                && drop_member(members, j, k)[i].no_duplicates(),
        forall|i: J, x: K| #[trigger]
            holds(drop_member(members, j, k), i, x) == (holds(members, i, x) && !(i == j && x
                == k)),
        forall|i: J|
            i != j ==> #[trigger] drop_member(members, j, k).contains_key(i)
                == members.contains_key(i) && drop_member(members, j, k)[i] == members[i],
{
    let after = drop_member(members, j, k);
    if members.contains_key(j) {
        let rest = without(members[j], k);
        without_contains(members[j], k);
        assert forall|i: J, x: K| #[trigger]
            holds(after, i, x) == (holds(members, i, x) && !(i == j && x == k)) by {
            if i == j {
                assert(rest.contains(x) <==> members[j].contains(x) && x != k);
                if rest.len() == 0 {
                    assert(!rest.contains(x));
                    assert(!after.contains_key(j));
                } else {
                    assert(after.contains_key(j) && after[j] == rest);
                }
            } else {
                assert(after.contains_key(i) == members.contains_key(i));
                assert(after.contains_key(i) ==> after[i] == members[i]);
            }
        }
        assert forall|i: J| #[trigger] after.contains_key(i) implies after[i].len() > 0
            && after[i].no_duplicates() by {
            if i != j {
                assert(members.contains_key(i));
            }
        }
    }
}

impl<K, V, J> Side<K, V, J> {
    pub proof fn detached_effect(self, k: K)
        requires
            self.wf(),
        ensures
            forall|i: J| #[trigger]
                self.detached(k).contains_key(i) ==> self.detached(k)[i].len() > 0
                    && self.detached(k)[i].no_duplicates(),
            forall|i: J, x: K| #[trigger]
                holds(self.detached(k), i, x) == (self.keys.contains_key(x) && self.keys[x] == i
                    && x != k),
            forall|i: J|
                lookup(self.keys, k) != Some(i) ==> #[trigger] self.detached(k).contains_key(i)
                    == self.members.contains_key(i) && self.detached(k)[i] == self.members[i],
    {
        if self.keys.contains_key(k) {
            drop_member_effect(self.members, self.keys[k], k);
        }
        assert forall|i: J, x: K| #[trigger]
            holds(self.detached(k), i, x) == (self.keys.contains_key(x) && self.keys[x] == i && x
                != k) by {
            assert(self.member(i, x) == (self.keys.contains_key(x) && self.keys[x] == i));
        }
    }

    /// Dropping a row keeps the side well formed, and leaves the rows of other join keys alone.
    pub proof fn dropped_effect(self, k: K, jk: spec_fn(K, V) -> Option<J>)
        requires
            self.wf(),
        ensures
            self.dropped(k).wf(),
            self.keyed_by(jk) ==> self.dropped(k).keyed_by(jk),
            forall|j: J|
                lookup(self.keys, k) != Some(j) ==> #[trigger] self.dropped(k).matches_of(j)
                    == self.matches_of(j),
    {
        self.detached_effect(k);
        let after = self.dropped(k);
        assert forall|j: J, x: K| #[trigger]
            after.member(j, x) == (after.keys.contains_key(x) && after.keys[x] == j) by {
            assert(after.member(j, x) == holds(self.detached(k), j, x));
        }
        assert forall|j: J| lookup(self.keys, k) != Some(j) implies #[trigger] after.matches_of(j)
            == self.matches_of(j) by {
            self.matches_unchanged(after, k, j);
        }
    }

    /// A join key whose members stay, none of which is the changed key, has the rows that it had.
    pub proof fn matches_unchanged(self, after: Side<K, V, J>, k: K, j: J)
        requires
            self.wf(),
            lookup(self.keys, k) != Some(j),
            after.members.contains_key(j) == self.members.contains_key(j),
            after.members[j] == self.members[j],
            forall|x: K| x != k ==> #[trigger] after.rows[x] == self.rows[x],
        ensures
            after.matches_of(j) == self.matches_of(j),
    {
        assert(!self.member(j, k));
        assert forall|i: int| 0 <= i < self.members_of(j).len() implies self.members_of(j)[i] != k by {
            assert(self.members_of(j).contains(self.members_of(j)[i]));
        }
        assert(after.matches_of(j) =~= self.matches_of(j));
    }

    /// Setting a row keeps the side well formed, and changes only the rows of the join keys named.
    pub proof fn set_effect(self, k: K, v: V, join: Option<J>, jk: spec_fn(K, V) -> Option<J>)
        requires
            self.wf(),
        ensures
            self.set(k, v, join).wf(),
            self.keyed_by(jk) && join == jk(k, v) ==> self.set(k, v, join).keyed_by(jk),
            forall|j: J|
                !self.joins_of_set(k, join).contains(j) ==> #[trigger] self.set(k, v, join).matches_of(
                    j,
                ) == self.matches_of(j),
    {
        self.dropped_effect(k, jk);
        let after = self.set(k, v, join);
        let joins = self.joins_of_set(k, join);
        let had = lookup(self.keys, k);
        assert(had is Some && had != join ==> joins.contains(had->Some_0)) by {
            if had is Some && had != join {
                assert(joins[0] == had->Some_0);
            }
        }
        match join {
            None => {
                assert forall|j: J| !joins.contains(j) implies #[trigger] after.matches_of(j)
                    == self.matches_of(j) by {
                    assert(lookup(self.keys, k) != Some(j));
                }
            },
            Some(new) => {
                assert(joins.contains(new)) by {
                    assert(joins[joins.len() - 1] == new);
                }
                if had == Some(new) {
                    assert forall|j: J, x: K| #[trigger]
                        after.member(j, x) == (after.keys.contains_key(x) && after.keys[x] == j) by {
                        assert(self.member(j, x) == (self.keys.contains_key(x) && self.keys[x] == j));
                    }
                } else {
                    self.detached_effect(k);
                    let left = self.detached(k);
                    let put = if left.contains_key(new) { push_new(left[new], k) } else { seq![k] };
                    if left.contains_key(new) {
                        push_new_contains(left[new], k);
                    } else {
                        assert forall|x: K| put.contains(x) <==> x == k by {
                            assert(put[0] == k);
                        }
                    }
                    assert(put.len() > 0 && put.no_duplicates());
                    assert forall|j: J, x: K| #[trigger]
                        after.member(j, x) == (after.keys.contains_key(x) && after.keys[x] == j) by {
                        let _ = holds(left, j, x);
                        let _ = holds(left, new, x);
                        assert(after.members[j] == if j == new { put } else { left[j] });
                        if j == new {
                            if left.contains_key(new) {
                                assert(put.contains(x) <==> left[new].contains(x) || x == k);
                            } else {
                                assert(put.contains(x) <==> x == k);
                                assert(!(self.keys.contains_key(x) && self.keys[x] == new && x != k));
                            }
                        }
                    }
                }
                assert forall|j: J| !joins.contains(j) implies #[trigger] after.matches_of(j)
                    == self.matches_of(j) by {
                    assert(j != new);
                    self.matches_unchanged(after, k, j);
                }
            },
        }
    }

    pub proof fn load_effect(self, entries: Seq<(K, V)>, jk: spec_fn(K, V) -> Option<J>)
        requires
            self.wf(),
        ensures
            self.load(entries, jk).wf(),
            self.keyed_by(jk) ==> self.load(entries, jk).keyed_by(jk),
        decreases entries.len(),
    {
        if entries.len() > 0 {
            let (k, v) = entries.last();
            self.load_effect(entries.drop_last(), jk);
            self.load(entries.drop_last(), jk).set_effect(k, v, jk(k, v), jk);
        }
    }

    /// A change keeps the side well formed.
    pub proof fn step_effect(self, change: Change<K, V>, jk: spec_fn(K, V) -> Option<J>)
        requires
            self.wf(),
        ensures
            self.step(change, jk).wf(),
            self.keyed_by(jk) ==> self.step(change, jk).keyed_by(jk),
    {
        match change {
            Change::Initial { entries } => {
                empty_side_wf::<K, V, J>(jk);
                empty_side::<K, V, J>().load_effect(entries, jk);
            },
            Change::Insert { key, value } => self.set_effect(key, value, jk(key, value), jk),
            Change::Remove { key, old_value } => self.dropped_effect(key, jk),
            Change::Update { key, old_value, new_value } => self.set_effect(
                key,
                new_value,
                jk(key, new_value),
                jk,
            ),
        }
    }

    /// Changes keep the side well formed.
    pub proof fn run_effect(self, steps: Seq<Change<K, V>>, jk: spec_fn(K, V) -> Option<J>)
        requires
            self.wf(),
        ensures
            self.run(steps, jk).wf(),
            self.keyed_by(jk) ==> self.run(steps, jk).keyed_by(jk),
        decreases steps.len(),
    {
        if steps.len() > 0 {
            self.run_effect(steps.drop_last(), jk);
            self.run(steps.drop_last(), jk).step_effect(steps.last(), jk);
        }
    }
}

/// The keys of entries, in order.
pub open spec fn entry_keys<K, V>(entries: Seq<(K, V)>) -> Seq<K> {
    entries.map_values(|e: (K, V)| e.0)
}

impl<K, V, J> Side<K, V, J> {
    /// The keys of the rows that a change touches, put behind those of `from`, give `to`. The rows
    /// that a new beginning drops come in some order.
    pub open spec fn keys_step(self, change: Change<K, V>, from: Seq<K>, to: Seq<K>) -> bool {
        match change {
            Change::Initial { entries } => exists|dropped: Seq<K>| #[trigger]
                lists(dropped, self.rows.dom()) && to == extend_new(
                    extend_new(from, dropped),
                    entry_keys(entries),
                ),
            Change::Insert { key, value } => to == push_new(from, key),
            Change::Remove { key, old_value } => to == if self.rows.contains_key(key) {
                push_new(from, key)
            } else {
                from
            },
            Change::Update { key, old_value, new_value } => to == push_new(from, key),
        }
    }

    /// The keys of the rows that changes touch, put behind those of `from`, give `to`.
    pub open spec fn keys_run(
        self,
        steps: Seq<Change<K, V>>,
        jk: spec_fn(K, V) -> Option<J>,
        from: Seq<K>,
        to: Seq<K>,
    ) -> bool
        decreases steps.len(),
    {
        if steps.len() == 0 {
            to == from
        } else {
            exists|mid: Seq<K>|
                self.keys_run(steps.drop_last(), jk, from, mid) && #[trigger] self.run(
                    steps.drop_last(),
                    jk,
                ).keys_step(steps.last(), mid, to)
        }
    }

    /// `joins` names every join key that a row has.
    pub open spec fn lists_joins(self, joins: Seq<J>) -> bool {
        forall|j: J| joins.contains(j) <==> #[trigger] self.members.contains_key(j)
    }

    /// The join keys whose rows change when entries are set in turn, put behind those of `from`.
    pub open spec fn joins_load(
        self,
        entries: Seq<(K, V)>,
        jk: spec_fn(K, V) -> Option<J>,
        from: Seq<J>,
    ) -> Seq<J>
        decreases entries.len(),
    {
        if entries.len() == 0 {
            from
        } else {
            let (k, v) = entries.last();
            extend_new(
                self.joins_load(entries.drop_last(), jk, from),
                self.load(entries.drop_last(), jk).joins_of_set(k, jk(k, v)),
            )
        }
    }

    /// The join keys whose rows a change changes, put behind those of `from`, give `to`. Those that
    /// a new beginning drops come in some order.
    pub open spec fn joins_step(
        self,
        change: Change<K, V>,
        jk: spec_fn(K, V) -> Option<J>,
        from: Seq<J>,
        to: Seq<J>,
    ) -> bool {
        match change {
            Change::Initial { entries } => exists|dropped: Seq<J>| #[trigger]
                self.lists_joins(dropped) && to == empty_side::<K, V, J>().joins_load(
                    entries,
                    jk,
                    extend_new(from, dropped),
                ),
            Change::Insert { key, value } => to == extend_new(
                from,
                self.joins_of_set(key, jk(key, value)),
            ),
            Change::Remove { key, old_value } => to == extend_new(
                from,
                self.joins_of_set(key, None),
            ),
            Change::Update { key, old_value, new_value } => to == extend_new(
                from,
                self.joins_of_set(key, jk(key, new_value)),
            ),
        }
    }

    /// The join keys whose rows changes change, put behind those of `from`, give `to`.
    pub open spec fn joins_run(
        self,
        steps: Seq<Change<K, V>>,
        jk: spec_fn(K, V) -> Option<J>,
        from: Seq<J>,
        to: Seq<J>,
    ) -> bool
        decreases steps.len(),
    {
        if steps.len() == 0 {
            to == from
        } else {
            exists|mid: Seq<J>|
                self.joins_run(steps.drop_last(), jk, from, mid) && #[trigger] self.run(
                    steps.drop_last(),
                    jk,
                ).joins_step(steps.last(), jk, mid, to)
        }
    }

    /// A key whose row is the same on two sides.
    pub open spec fn same_at(self, other: Side<K, V, J>, k: K) -> bool {
        lookup(self.rows, k) == lookup(other.rows, k) && lookup(self.keys, k) == lookup(
            other.keys,
            k,
        )
    }

    pub proof fn load_keys_effect(self, entries: Seq<(K, V)>, jk: spec_fn(K, V) -> Option<J>)
        ensures
            forall|k: K|
                !entry_keys(entries).contains(k) ==> #[trigger] self.load(entries, jk).same_at(self, k),
        decreases entries.len(),
    {
        if entries.len() > 0 {
            let rest = entries.drop_last();
            self.load_keys_effect(rest, jk);
            assert forall|k: K| !entry_keys(entries).contains(k) implies #[trigger] self.load(
                entries,
                jk,
            ).same_at(self, k) by {
                assert(entry_keys(entries)[entries.len() - 1] == entries.last().0);
                assert(!entry_keys(rest).contains(k)) by {
                    if entry_keys(rest).contains(k) {
                        let i = choose|i: int| 0 <= i < rest.len() && entry_keys(rest)[i] == k;
                        assert(entry_keys(entries)[i] == k);
                    }
                }
                assert(self.load(rest, jk).same_at(self, k));
            }
        }
    }

    /// Every row that changes is named among the touched keys.
    pub proof fn keys_step_effect(
        self,
        change: Change<K, V>,
        jk: spec_fn(K, V) -> Option<J>,
        from: Seq<K>,
        to: Seq<K>,
    )
        requires
            self.wf(),
            from.no_duplicates(),
            self.keys_step(change, from, to),
        ensures
            to.no_duplicates(),
            forall|k: K| from.contains(k) ==> to.contains(k),
            forall|k: K| !to.contains(k) ==> #[trigger] self.step(change, jk).same_at(self, k),
    {
        match change {
            Change::Initial { entries } => {
                let dropped = choose|dropped: Seq<K>| #[trigger]
                    lists(dropped, self.rows.dom()) && to == extend_new(
                        extend_new(from, dropped),
                        entry_keys(entries),
                    );
                extend_new_contains(from, dropped);
                extend_new_contains(extend_new(from, dropped), entry_keys(entries));
                empty_side::<K, V, J>().load_keys_effect(entries, jk);
                assert forall|k: K| !to.contains(k) implies #[trigger] self.step(change, jk).same_at(
                    self,
                    k,
                ) by {
                    assert(empty_side::<K, V, J>().load(entries, jk).same_at(empty_side(), k));
                    assert(!self.rows.dom().contains(k));
                }
            },
            Change::Insert { key, value } => {
                push_new_contains(from, key);
            },
            Change::Remove { key, old_value } => {
                push_new_contains(from, key);
            },
            Change::Update { key, old_value, new_value } => {
                push_new_contains(from, key);
            },
        }
    }

    /// Every row that changes is named among the touched keys.
    pub proof fn keys_run_effect(
        self,
        steps: Seq<Change<K, V>>,
        jk: spec_fn(K, V) -> Option<J>,
        from: Seq<K>,
        to: Seq<K>,
    )
        requires
            self.wf(),
            from.no_duplicates(),
            self.keys_run(steps, jk, from, to),
        ensures
            to.no_duplicates(),
            forall|k: K| from.contains(k) ==> to.contains(k),
            forall|k: K| !to.contains(k) ==> #[trigger] self.run(steps, jk).same_at(self, k),
        decreases steps.len(),
    {
        if steps.len() > 0 {
            let rest = steps.drop_last();
            let mid = choose|mid: Seq<K>|
                self.keys_run(rest, jk, from, mid) && #[trigger] self.run(rest, jk).keys_step(
                    steps.last(),
                    mid,
                    to,
                );
            self.keys_run_effect(rest, jk, from, mid);
            self.run_effect(rest, jk);
            self.run(rest, jk).keys_step_effect(steps.last(), jk, mid, to);
            assert forall|k: K| !to.contains(k) implies #[trigger] self.run(steps, jk).same_at(
                self,
                k,
            ) by {
                assert(!mid.contains(k));
                assert(self.run(rest, jk).same_at(self, k));
                assert(self.run(rest, jk).step(steps.last(), jk).same_at(self.run(rest, jk), k));
            }
        }
    }

    pub proof fn joins_load_effect(
        self,
        entries: Seq<(K, V)>,
        jk: spec_fn(K, V) -> Option<J>,
        from: Seq<J>,
    )
        requires
            self.wf(),
            from.no_duplicates(),
        ensures
            self.joins_load(entries, jk, from).no_duplicates(),
            forall|j: J| from.contains(j) ==> self.joins_load(entries, jk, from).contains(j),
            forall|j: J|
                !self.joins_load(entries, jk, from).contains(j) ==> #[trigger] self.load(
                    entries,
                    jk,
                ).matches_of(j) == self.matches_of(j),
        decreases entries.len(),
    {
        if entries.len() > 0 {
            let rest = entries.drop_last();
            let (k, v) = entries.last();
            self.joins_load_effect(rest, jk, from);
            self.load_effect(rest, jk);
            let mid = self.load(rest, jk);
            mid.set_effect(k, v, jk(k, v), jk);
            let seen = self.joins_load(rest, jk, from);
            extend_new_contains(seen, mid.joins_of_set(k, jk(k, v)));
            assert forall|j: J|
                !self.joins_load(entries, jk, from).contains(j) implies #[trigger] self.load(
                entries,
                jk,
            ).matches_of(j) == self.matches_of(j) by {
                assert(!mid.joins_of_set(k, jk(k, v)).contains(j));
                assert(mid.set(k, v, jk(k, v)).matches_of(j) == mid.matches_of(j));
                assert(mid.matches_of(j) == self.matches_of(j));
            }
        }
    }

    /// Every join key whose rows change is named.
    pub proof fn joins_step_effect(
        self,
        change: Change<K, V>,
        jk: spec_fn(K, V) -> Option<J>,
        from: Seq<J>,
        to: Seq<J>,
    )
        requires
            self.wf(),
            from.no_duplicates(),
            self.joins_step(change, jk, from, to),
        ensures
            to.no_duplicates(),
            forall|j: J| from.contains(j) ==> to.contains(j),
            forall|j: J|
                !to.contains(j) ==> #[trigger] self.step(change, jk).matches_of(j)
                    == self.matches_of(j),
    {
        match change {
            Change::Initial { entries } => {
                let empty = empty_side::<K, V, J>();
                let dropped = choose|dropped: Seq<J>| #[trigger]
                    self.lists_joins(dropped) && to == empty.joins_load(
                        entries,
                        jk,
                        extend_new(from, dropped),
                    );
                extend_new_contains(from, dropped);
                empty_side_wf::<K, V, J>(jk);
                empty.joins_load_effect(entries, jk, extend_new(from, dropped));
                assert forall|j: J| !to.contains(j) implies #[trigger] self.step(change, jk).matches_of(
                    j,
                ) == self.matches_of(j) by {
                    assert(!dropped.contains(j));
                    assert(!self.members.contains_key(j));
                    assert(empty.load(entries, jk).matches_of(j) == empty.matches_of(j));
                    assert(empty.matches_of(j) =~= self.matches_of(j));
                }
            },
            Change::Insert { key, value } => {
                extend_new_contains(from, self.joins_of_set(key, jk(key, value)));
                self.set_effect(key, value, jk(key, value), jk);
            },
            Change::Remove { key, old_value } => {
                extend_new_contains(from, self.joins_of_set(key, None));
                self.set_effect(key, old_value, None, jk);
                assert forall|j: J| !to.contains(j) implies #[trigger] self.step(change, jk).matches_of(
                    j,
                ) == self.matches_of(j) by {
                    assert(self.set(key, old_value, None).matches_of(j) == self.matches_of(j));
                }
            },
            Change::Update { key, old_value, new_value } => {
                extend_new_contains(from, self.joins_of_set(key, jk(key, new_value)));
                self.set_effect(key, new_value, jk(key, new_value), jk);
            },
        }
    }

    /// Every join key whose rows change is named.
    pub proof fn joins_run_effect(
        self,
        steps: Seq<Change<K, V>>,
        jk: spec_fn(K, V) -> Option<J>,
        from: Seq<J>,
        to: Seq<J>,
    )
        requires
            self.wf(),
            from.no_duplicates(),
            self.joins_run(steps, jk, from, to),
        ensures
            to.no_duplicates(),
            forall|j: J| from.contains(j) ==> to.contains(j),
            forall|j: J|
                !to.contains(j) ==> #[trigger] self.run(steps, jk).matches_of(j)
                    == self.matches_of(j),
        decreases steps.len(),
    {
        if steps.len() > 0 {
            let rest = steps.drop_last();
            let mid = choose|mid: Seq<J>|
                self.joins_run(rest, jk, from, mid) && #[trigger] self.run(rest, jk).joins_step(
                    steps.last(),
                    jk,
                    mid,
                    to,
                );
            self.joins_run_effect(rest, jk, from, mid);
            self.run_effect(rest, jk);
            self.run(rest, jk).joins_step_effect(steps.last(), jk, mid, to);
            assert forall|j: J| !to.contains(j) implies #[trigger] self.run(steps, jk).matches_of(j)
                == self.matches_of(j) by {
                assert(!mid.contains(j));
                assert(self.run(rest, jk).matches_of(j) == self.matches_of(j));
                assert(self.run(rest, jk).step(steps.last(), jk).matches_of(j) == self.run(
                    rest,
                    jk,
                ).matches_of(j));
            }
        }
    }

    /// The keys of the rows that have one of several join keys, put behind those of `from`.
    pub open spec fn extend_members(self, joins: Seq<J>, from: Seq<K>) -> Seq<K>
        decreases joins.len(),
    {
        if joins.len() == 0 {
            from
        } else {
            extend_new(self.extend_members(joins.drop_last(), from), self.members_of(joins.last()))
        }
    }

    pub proof fn extend_members_effect(self, joins: Seq<J>, from: Seq<K>)
        requires
            self.wf(),
            from.no_duplicates(),
        ensures
            self.extend_members(joins, from).no_duplicates(),
            forall|k: K| from.contains(k) ==> self.extend_members(joins, from).contains(k),
            forall|k: K|
                #![trigger self.keys.contains_key(k)]
                self.keys.contains_key(k) && joins.contains(self.keys[k]) ==> self.extend_members(
                    joins,
                    from,
                ).contains(k),
        decreases joins.len(),
    {
        if joins.len() > 0 {
            let rest = joins.drop_last();
            self.extend_members_effect(rest, from);
            extend_new_contains(self.extend_members(rest, from), self.members_of(joins.last()));
            assert forall|k: K|
                #![trigger self.keys.contains_key(k)]
                self.keys.contains_key(k) && joins.contains(self.keys[k]) implies self.extend_members(
                joins,
                from,
            ).contains(k) by {
                let j = self.keys[k];
                let i = choose|i: int| 0 <= i < joins.len() && joins[i] == j;
                if i < joins.len() - 1 {
                    assert(rest[i] == j);
                } else {
                    assert(self.member(j, k));
                }
            }
        }
    }
}

impl<K, V, J> Side<K, V, J> {
}

/// The rows of one side of a join, found by key and by join key.
#[verifier::reject_recursive_types(K)]
#[verifier::reject_recursive_types(V)]
#[verifier::reject_recursive_types(J)]
pub struct KeyedIndex<K: MapKey, V: CellValue, J: MapKey> {
    pub(crate) rows: FxMap<K, V>,
    pub(crate) join_keys: FxMap<K, J>,
    pub(crate) members: FxMap<J, Vec<K>>,
}

impl<K: MapKey, V: CellValue, J: MapKey> View for KeyedIndex<K, V, J> {
    type V = Side<K::Model, V::Model, J::Model>;

    closed spec fn view(&self) -> Side<K::Model, V::Model, J::Model> {
        Side { rows: self.rows@, keys: self.join_keys@, members: self.members@ }
    }
}

/// Puts a member at the end of the members of a join key, unless it is among them.
pub fn add_index_member<I: MapKey, M: MapKey>(index: &mut FxMap<I, Vec<M>>, index_key: I, member: M)
    ensures
        final(index)@ == add_member(old(index)@, index_key.model(), member.model()),
{
    match index.remove(&index_key) {
        Some(mut list) => {
            let ghost all = models(list@);
            let mut i: usize = 0;
            while i < list.len() && !list[i].equals(&member)
                invariant
                    i <= list@.len(),
                    all == models(list@),
                    forall|n: int| 0 <= n < i ==> #[trigger] all[n] != member.model(),
                decreases list@.len() - i,
            {
                i += 1;
            }
            if i == list.len() {
                proof {
                    models_push(list@, member);
                    assert(!all.contains(member.model()));
                }
                list.push(member);
            } else {
                assert(all[i as int] == member.model());
                assert(all.contains(member.model()));
            }
            index.insert(index_key, list);
        },
        None => {
            let mut list: Vec<M> = Vec::new();
            list.push(member);
            assert(models(list@) =~= seq![member.model()]);
            index.insert(index_key, list);
        },
    }
    assert(index@ =~= add_member(old(index)@, index_key.model(), member.model()));
}

proof fn models_remove<T: CellValue>(s: Seq<T>, i: int)
    requires
        0 <= i < s.len(),
    ensures
        models(s.remove(i)) == models(s).remove(i),
{
    assert(models(s.remove(i)) =~= models(s).remove(i));
}

/// Takes a member from the members of a join key, and drops a join key without members.
pub fn remove_index_member<I: MapKey, M: MapKey>(
    index: &mut FxMap<I, Vec<M>>,
    index_key: &I,
    member: &M,
)
    ensures
        final(index)@ == drop_member(old(index)@, index_key.model(), member.model()),
{
    match index.remove(index_key) {
        Some(mut list) => {
            let ghost all = models(list@);
            let ghost m = member.model();
            let ghost mut n: int = 0;
            let mut i: usize = 0;
            proof {
                assert(all.take(0) =~= Seq::empty());
                assert(models(list@) =~= without(all.take(0), m) + all.skip(0));
            }
            while i < list.len()
                invariant
                    m == member.model(),
                    0 <= n <= all.len(),
                    i == without(all.take(n), m).len(),
                    models(list@) == without(all.take(n), m) + all.skip(n),
                    list@.len() == i + all.len() - n,
                decreases all.len() - n,
            {
                let ghost kept = without(all.take(n), m);
                proof {
                    assert(all.take(n + 1).drop_last() =~= all.take(n));
                    assert(all.take(n + 1).last() == all[n]);
                    assert(models(list@)[i as int] == all[n]);
                }
                if list[i].equals(member) {
                    proof {
                        models_remove(list@, i as int);
                        assert((kept + all.skip(n)).remove(i as int) =~= kept + all.skip(n + 1));
                    }
                    list.remove(i);
                } else {
                    proof {
                        assert(kept + all.skip(n) =~= kept.push(all[n]) + all.skip(n + 1));
                    }
                    i += 1;
                }
                proof {
                    n = n + 1;
                }
            }
            proof {
                assert(all.take(n) =~= all);
                assert(models(list@) =~= without(all, m));
                assert(models(list@).len() == list@.len());
            }
            if list.len() > 0 {
                index.insert(index_key.clone_value(), list);
            }
        },
        None => {},
    }
    assert(index@ =~= drop_member(old(index)@, index_key.model(), member.model()));
}

impl<K: MapKey, V: CellValue, J: MapKey> KeyedIndex<K, V, J> {
    pub fn new() -> (index: KeyedIndex<K, V, J>)
        ensures
            index@ == empty_side::<K::Model, V::Model, J::Model>(),
    {
        KeyedIndex { rows: FxMap::new(), join_keys: FxMap::new(), members: FxMap::new() }
    }

    pub fn clear(&mut self)
        ensures
            final(self)@ == empty_side::<K::Model, V::Model, J::Model>(),
    {
        self.rows.clear();
        self.join_keys.clear();
        self.members.clear();
    }

    /// The row of a key.
    pub fn row(&self, key: &K) -> (row: Option<&V>)
        ensures
            row is Some == self@.rows.contains_key(key.model()),
            row is Some ==> row->Some_0.model() == self@.rows[key.model()],
    {
        self.rows.get(key)
    }

    /// The join key of the row of a key.
    pub fn join_key(&self, key: &K) -> (join_key: Option<&J>)
        ensures
            join_key is Some == self@.keys.contains_key(key.model()),
            join_key is Some ==> join_key->Some_0.model() == self@.keys[key.model()],
    {
        self.join_keys.get(key)
    }

    /// The keys of the rows, in an order that nothing is said of.
    pub fn row_keys(&self) -> (keys: Vec<K>)
        ensures
            lists(models(keys@), self@.rows.dom()),
    {
        self.rows.keys()
    }

    /// The join keys that rows have, in an order that nothing is said of.
    pub fn joins(&self) -> (joins: Vec<J>)
        ensures
            self@.lists_joins(models(joins@)),
            models(joins@).no_duplicates(),
    {
        let joins = self.members.keys();
        assert forall|j: J::Model| models(joins@).contains(j) <==> #[trigger] self@.members.contains_key(j) by {
            assert(models(joins@).contains(j) <==> self.members@.dom().contains(j));
        }
        joins
    }

    /// The keys of the rows that have a join key, in order.
    pub fn members_of(&self, join_key: &J) -> (members: Option<&Vec<K>>)
        ensures
            members is Some == self@.members.contains_key(join_key.model()),
            members is Some ==> models(members->Some_0@) == self@.members[join_key.model()],
    {
        self.members.get(join_key)
    }

    /// Drops the row of a key, and tells the join key and the value that it had.
    pub fn remove(&mut self, key: &K) -> (had: (Option<J>, Option<V>))
        ensures
            final(self)@ == old(self)@.dropped(key.model()),
            had.0.model() == lookup(old(self)@.keys, key.model()),
            had.1.model() == lookup(old(self)@.rows, key.model()),
    {
        let previous = self.join_keys.remove(key);
        match &previous {
            Some(join_key) => {
                remove_index_member(&mut self.members, join_key, key);
            },
            None => {},
        }
        let row = self.rows.remove(key);
        (previous, row)
    }

    /// Sets the row of a key under a join key; with none the row is not kept. Tells the join key
    /// that the row had.
    pub fn set(&mut self, key: K, value: V, join_key: Option<J>) -> (had: Option<J>)
        ensures
            final(self)@ == old(self)@.set(key.model(), value.model(), join_key.model()),
            had.model() == lookup(old(self)@.keys, key.model()),
    {
        match join_key {
            Some(join_key) => {
                let previous = self.join_keys.insert(key.clone_value(), join_key.clone_value());
                match &previous {
                    Some(previous_key) => {
                        if !previous_key.equals(&join_key) {
                            remove_index_member(&mut self.members, previous_key, &key);
                            add_index_member(&mut self.members, join_key, key.clone_value());
                        }
                    },
                    None => {
                        add_index_member(&mut self.members, join_key, key.clone_value());
                    },
                }
                self.rows.insert(key, value);
                previous
            },
            None => self.remove(&key).0,
        }
    }
}

/// The join key function of a side whose rows all have a join key.
pub open spec fn total_key<K: CellValue, V: CellValue, J: CellValue, F: RowFn<K, V, J>>(
    f: F,
) -> spec_fn(K::Model, V::Model) -> Option<J::Model> {
    |k: K::Model, v: V::Model| Some(image2::<K, V, J, F>(f, k, v))
}

impl<K: MapKey, V: CellValue, J: MapKey> KeyedIndex<K, V, J> {
    fn apply_change<F: RowFn<K, V, J>>(
        &mut self,
        leaf: &MapDiff<K, V>,
        join_key: &F,
        impacted: &mut OrderedSet<K>,
    )
        requires
            pure2::<K, V, J, F>(*join_key),
            old(impacted).wf(),
            !(leaf is Batch),
        ensures
            final(self)@ == old(self)@.step(leaf.atom(), total_key::<K, V, J, F>(*join_key)),
            final(impacted).wf(),
            old(self)@.keys_step(leaf.atom(), old(impacted)@, final(impacted)@),
    {
        let ghost jk = total_key::<K, V, J, F>(*join_key);
        match leaf {
            MapDiff::Initial { entries } => {
                let ghost start = impacted@;
                let dropped = self.row_keys();
                self.clear();
                impacted.extend(&dropped);
                let mut i: usize = 0;
                let ghost all = models(entries@);
                let ghost empty = empty_side::<K::Model, V::Model, J::Model>();
                let ghost mid = impacted@;
                proof {
                    assert(all.take(0) =~= Seq::empty());
                    assert(entry_keys(all).take(0) =~= Seq::empty());
                }
                while i < entries.len()
                    invariant
                        i <= entries@.len(),
                        all == models(entries@),
                        jk == total_key::<K, V, J, F>(*join_key),
                        pure2::<K, V, J, F>(*join_key),
                        impacted.wf(),
                        self@ == empty.load(all.take(i as int), jk),
                        impacted@ == extend_new(mid, entry_keys(all).take(i as int)),
                    decreases entries@.len() - i,
                {
                    let (key, value) = &entries[i];
                    proof {
                        assert(all.take(i + 1).drop_last() =~= all.take(i as int));
                        assert(all.take(i + 1).last() == (key.model(), value.model()));
                        assert(entry_keys(all).take(i + 1).drop_last() =~= entry_keys(all).take(
                            i as int,
                        ));
                        assert(entry_keys(all).take(i + 1).last() == key.model());
                    }
                    let join = call2(join_key, key, value);
                    self.set(key.clone_value(), value.clone_value(), Some(join));
                    impacted.insert(key.clone_value());
                    i += 1;
                }
                proof {
                    assert(all.take(i as int) =~= all);
                    assert(entry_keys(all).take(i as int) =~= entry_keys(all));
                    assert(lists(models(dropped@), old(self)@.rows.dom()));
                }
            },
            MapDiff::Insert { key, value } => {
                let join = call2(join_key, key, value);
                self.set(key.clone_value(), value.clone_value(), Some(join));
                impacted.insert(key.clone_value());
            },
            MapDiff::Update { key, new_value, .. } => {
                let join = call2(join_key, key, new_value);
                self.set(key.clone_value(), new_value.clone_value(), Some(join));
                impacted.insert(key.clone_value());
            },
            MapDiff::Remove { key, .. } => {
                if self.remove(key).1.is_some() {
                    impacted.insert(key.clone_value());
                }
            },
            MapDiff::Batch { .. } => {},
        }
    }

    /// Follows a diff of rows that all have a join key, and names the keys that it touches.
    pub fn apply_left_diff<F: RowFn<K, V, J>>(
        &mut self,
        diff: &MapDiff<K, V>,
        join_key: &F,
        impacted: &mut OrderedSet<K>,
    )
        requires
            pure2::<K, V, J, F>(*join_key),
            old(impacted).wf(),
        ensures
            final(self)@ == old(self)@.run(diff.steps(), total_key::<K, V, J, F>(*join_key)),
            final(impacted).wf(),
            old(self)@.keys_run(
                diff.steps(),
                total_key::<K, V, J, F>(*join_key),
                old(impacted)@,
                final(impacted)@,
            ),
    {
        let ghost jk = total_key::<K, V, J, F>(*join_key);
        let ghost steps = diff.steps();
        let leaves = diff.leaves();
        let mut i: usize = 0;
        assert(steps.take(0) =~= Seq::empty());
        while i < leaves.len()
            invariant
                i <= leaves@.len(),
                all_leaves(leaves@),
                steps == diff.steps(),
                atoms(leaves@) == steps,
                jk == total_key::<K, V, J, F>(*join_key),
                pure2::<K, V, J, F>(*join_key),
                impacted.wf(),
                self@ == old(self)@.run(steps.take(i as int), jk),
                old(self)@.keys_run(steps.take(i as int), jk, old(impacted)@, impacted@),
            decreases leaves@.len() - i,
        {
            let ghost mid = impacted@;
            let ghost side = self@;
            let leaf = leaves[i];
            self.apply_change(leaf, join_key, impacted);
            proof {
                assert(steps[i as int] == leaf.atom());
                assert(steps.take(i + 1).drop_last() =~= steps.take(i as int));
                assert(steps.take(i + 1).last() == steps[i as int]);
                assert(old(self)@.keys_run(steps.take(i + 1).drop_last(), jk, old(impacted)@, mid));
            }
            i += 1;
        }
        assert(steps.take(i as int) =~= steps);
    }

    /// Names the keys of the rows that have one of several join keys.
    pub fn collect_members(&self, joins: &Vec<J>, impacted: &mut OrderedSet<K>)
        requires
            old(impacted).wf(),
        ensures
            final(impacted).wf(),
            final(impacted)@ == self@.extend_members(models(joins@), old(impacted)@),
    {
        let ghost all = models(joins@);
        let mut i: usize = 0;
        assert(all.take(0) =~= Seq::empty());
        while i < joins.len()
            invariant
                i <= joins@.len(),
                all == models(joins@),
                impacted.wf(),
                impacted@ == self@.extend_members(all.take(i as int), old(impacted)@),
            decreases joins@.len() - i,
        {
            proof {
                assert(all.take(i + 1).drop_last() =~= all.take(i as int));
                assert(all.take(i + 1).last() == joins@[i as int].model());
            }
            match self.members_of(&joins[i]) {
                Some(members) => {
                    impacted.extend(members);
                },
                None => {},
            }
            i += 1;
        }
        assert(all.take(i as int) =~= all);
    }
}

impl<K, V, J> Side<K, V, J> {
    /// Where every row has a join key, the rows follow the changes as a map does.
    pub proof fn run_rows(self, steps: Seq<Change<K, V>>, jk: spec_fn(K, V) -> Option<J>)
        requires
            forall|k: K, v: V| #[trigger] jk(k, v) is Some,
        ensures
            self.run(steps, jk).rows == replay(self.rows, steps),
        decreases steps.len(),
    {
        if steps.len() > 0 {
            self.run_rows(steps.drop_last(), jk);
            match steps.last() {
                Change::Initial { entries } => {
                    empty_side::<K, V, J>().load_rows(entries, jk);
                },
                Change::Insert { key, value } => {
                    assert(jk(key, value) is Some);
                },
                Change::Update { key, old_value, new_value } => {
                    assert(jk(key, new_value) is Some);
                },
                Change::Remove { key, old_value } => {},
            }
        }
    }

    pub proof fn load_rows(self, entries: Seq<(K, V)>, jk: spec_fn(K, V) -> Option<J>)
        requires
            self.rows == Map::<K, V>::empty(),
            forall|k: K, v: V| #[trigger] jk(k, v) is Some,
        ensures
            self.load(entries, jk).rows == entries_map(entries),
        decreases entries.len(),
    {
        if entries.len() > 0 {
            self.load_rows(entries.drop_last(), jk);
            let (k, v) = entries.last();
            assert(jk(k, v) is Some);
        }
    }

    /// The rows whose join keys are among `seen`, and the first `n` of those that have `j`.
    pub open spec fn gathered(self, seen: Seq<J>, j: J, n: int) -> Side<K, V, J> {
        let has = |k: K|
            self.keys.contains_key(k) && (seen.contains(self.keys[k]) || self.members_of(j).take(
                n,
            ).contains(k));
        Side {
            rows: Map::new(|k: K| has(k), |k: K| self.rows[k]),
            keys: Map::new(|k: K| has(k), |k: K| self.keys[k]),
            members: Map::new(
                |i: J| (seen.contains(i) && self.members.contains_key(i)) || (i == j && n > 0),
                |i: J|
                    if seen.contains(i) {
                        self.members[i]
                    } else {
                        self.members_of(j).take(n)
                    },
            ),
        }
    }

    proof fn gathered_next(self, seen: Seq<J>, j: J, n: int)
        requires
            self.wf(),
            !seen.contains(j),
            0 <= n < self.members_of(j).len(),
        ensures
            self.gathered(seen, j, n).set(
                self.members_of(j)[n],
                self.rows[self.members_of(j)[n]],
                Some(j),
            ) == self.gathered(seen, j, n + 1),
            !self.gathered(seen, j, n).rows.contains_key(self.members_of(j)[n]),
            self.keys.contains_key(self.members_of(j)[n]),
            self.keys[self.members_of(j)[n]] == j,
    {
        let ms = self.members_of(j);
        let k = ms[n];
        let a = self.gathered(seen, j, n);
        let b = self.gathered(seen, j, n + 1);
        assert(ms.contains(k));
        assert(self.member(j, k));
        assert(self.members.contains_key(j));
        assert(!ms.take(n).contains(k)) by {
            if ms.take(n).contains(k) {
                let i = choose|i: int| 0 <= i < n && ms.take(n)[i] == k;
                assert(ms[i] == ms[n]);
            }
        }
        assert(ms.take(n + 1) =~= ms.take(n).push(k));
        assert forall|x: K| ms.take(n + 1).contains(x) <==> ms.take(n).contains(x) || x == k by {
            if ms.take(n).contains(x) {
                let i = choose|i: int| 0 <= i < n && ms.take(n)[i] == x;
                assert(ms.take(n + 1)[i] == x);
            }
            assert(ms.take(n + 1)[n] == k);
            if ms.take(n + 1).contains(x) {
                let next = ms.take(n + 1);
                let i = choose|i: int| 0 <= i < next.len() && next[i] == x;
                if i < n {
                    assert(ms.take(n)[i] == x);
                }
            }
        }
        let c = a.set(k, self.rows[k], Some(j));
        assert(!a.keys.contains_key(k));
        assert(c.rows =~= b.rows);
        assert(c.keys =~= b.keys);
        assert(n == 0 ==> ms.take(n + 1) =~= seq![k]);
        assert(c.members =~= b.members);
    }

    proof fn gathered_done(self, seen: Seq<J>, j: J, other: J)
        requires
            self.wf(),
            !seen.contains(j),
            self.members.contains_key(j),
        ensures
            self.gathered(seen, j, self.members_of(j).len() as int) == self.gathered(
                seen.push(j),
                other,
                0,
            ),
    {
        let ms = self.members_of(j);
        assert(ms.take(ms.len() as int) =~= ms);
        let a = self.gathered(seen, j, ms.len() as int);
        let b = self.gathered(seen.push(j), other, 0);
        assert forall|i: J| seen.push(j).contains(i) <==> seen.contains(i) || i == j by {
            if seen.contains(i) {
                let n = choose|n: int| 0 <= n < seen.len() && seen[n] == i;
                assert(seen.push(j)[n] == i);
            }
            assert(seen.push(j)[seen.len() as int] == j);
        }
        assert forall|k: K| self.keys.contains_key(k) implies (ms.contains(k) <==> self.keys[k] == j) by {
            assert(self.member(j, k) == (self.keys.contains_key(k) && self.keys[k] == j));
        }
        assert(self.members_of(other).take(0) =~= Seq::empty());
        assert(a.rows =~= b.rows);
        assert(a.keys =~= b.keys);
        assert(a.members =~= b.members);
    }

    proof fn gathered_all(self, seen: Seq<J>, other: J)
        requires
            self.wf(),
            self.lists_joins(seen),
        ensures
            self.gathered(seen, other, 0) == self,
    {
        let b = self.gathered(seen, other, 0);
        assert(self.members_of(other).take(0) =~= Seq::empty());
        assert forall|k: K| self.keys.contains_key(k) implies seen.contains(self.keys[k]) by {
            assert(self.member(self.keys[k], k));
            assert(self.members.contains_key(self.keys[k]));
        }
        assert forall|k: K| #[trigger] self.rows.contains_key(k) == self.keys.contains_key(k) by {}
        assert(b.rows =~= self.rows);
        assert(b.keys =~= self.keys);
        assert(b.members =~= self.members);
    }
}

impl<K: MapKey, V: CellValue, J: MapKey> KeyedIndex<K, V, J> {
    /// The rows as entries, those of each join key in their order. Setting them in turn on an empty
    /// side gives the side back.
    pub(crate) fn entries(&self, Ghost(jk): Ghost<spec_fn(K::Model, V::Model) -> Option<J::Model>>) -> (entries:
        Vec<(K, V)>)
        requires
            self@.wf(),
            self@.keyed_by(jk),
        ensures
            empty_side::<K::Model, V::Model, J::Model>().load(models(entries@), jk) == self@,
            entry_keys(models(entries@)).no_duplicates(),
    {
        let ghost side = self@;
        let ghost empty = empty_side::<K::Model, V::Model, J::Model>();
        let joins = self.joins();
        let ghost all = models(joins@);
        let mut entries: Vec<(K, V)> = Vec::new();
        let mut i: usize = 0;
        proof {
            let other = arbitrary::<J::Model>();
            assert(all.take(0) =~= Seq::empty());
            assert(side.members_of(other).take(0) =~= Seq::empty());
            assert(side.gathered(Seq::empty(), other, 0).rows =~= empty.rows);
            assert(side.gathered(Seq::empty(), other, 0).keys =~= empty.keys);
            assert(side.gathered(Seq::empty(), other, 0).members =~= empty.members);
            assert(models(entries@) =~= Seq::empty());
            assert(entry_keys(models(entries@)) =~= Seq::empty());
        }
        while i < joins.len()
            invariant
                i <= joins@.len(),
                side == self@,
                side.wf(),
                side.keyed_by(jk),
                all == models(joins@),
                all.no_duplicates(),
                side.lists_joins(all),
                empty == empty_side::<K::Model, V::Model, J::Model>(),
                empty.load(models(entries@), jk) == side.gathered(
                    all.take(i as int),
                    arbitrary::<J::Model>(),
                    0,
                ),
                entry_keys(models(entries@)).no_duplicates(),
                forall|k: K::Model|
                    entry_keys(models(entries@)).contains(k) ==> #[trigger] empty.load(
                        models(entries@),
                        jk,
                    ).rows.contains_key(k),
            decreases joins@.len() - i,
        {
            let ghost j = all[i as int];
            let ghost seen = all.take(i as int);
            proof {
                assert(!seen.contains(j));
                assert(all.contains(j));
                assert(side.members.contains_key(j));
                let other = arbitrary::<J::Model>();
                assert(side.members_of(other).take(0) =~= side.members_of(j).take(0));
                assert(side.gathered(seen, other, 0).rows =~= side.gathered(seen, j, 0).rows);
                assert(side.gathered(seen, other, 0).keys =~= side.gathered(seen, j, 0).keys);
                assert(side.gathered(seen, other, 0).members =~= side.gathered(seen, j, 0).members);
            }
            match self.members_of(&joins[i]) {
                Some(members) => {
                    let mut n: usize = 0;
                    while n < members.len()
                        invariant
                            n <= members@.len(),
                            side == self@,
                            side.wf(),
                            side.keyed_by(jk),
                            !seen.contains(j),
                            models(members@) == side.members_of(j),
                            empty == empty_side::<K::Model, V::Model, J::Model>(),
                            empty.load(models(entries@), jk) == side.gathered(seen, j, n as int),
                            entry_keys(models(entries@)).no_duplicates(),
                            forall|k: K::Model|
                                entry_keys(models(entries@)).contains(k) ==> #[trigger] empty.load(
                                    models(entries@),
                                    jk,
                                ).rows.contains_key(k),
                        decreases members@.len() - n,
                    {
                        let key = &members[n];
                        let ghost k = key.model();
                        proof {
                            assert(side.members_of(j)[n as int] == k);
                            side.gathered_next(seen, j, n as int);
                            assert(side.rows.contains_key(k) == side.keys.contains_key(k));
                        }
                        match self.row(key) {
                            Some(value) => {
                                let entry = (key.clone_value(), value.clone_value());
                                proof {
                                    let old_entries = models(entries@);
                                    models_push(entries@, entry);
                                    assert(models(entries@.push(entry)).drop_last() =~= old_entries);
                                    assert(jk(k, side.rows[k]) == Some(side.keys[k]));
                                    assert(entry_keys(old_entries.push((k, side.rows[k])))
                                        =~= entry_keys(old_entries).push(k));
                                    assert(!entry_keys(old_entries).contains(k));
                                    assert forall|x: K::Model|
                                        entry_keys(old_entries).push(k).contains(x) implies
                                        #[trigger] empty.load(
                                        old_entries.push((k, side.rows[k])),
                                        jk,
                                    ).rows.contains_key(x) by {
                                        if x != k {
                                            let m = choose|m: int|
                                                0 <= m < entry_keys(old_entries).push(k).len()
                                                    && entry_keys(old_entries).push(k)[m] == x;
                                            assert(entry_keys(old_entries)[m] == x);
                                            assert(empty.load(old_entries, jk).rows.contains_key(x));
                                        }
                                    }
                                }
                                entries.push(entry);
                            },
                            None => {},
                        }
                        n += 1;
                    }
                    proof {
                        side.gathered_done(seen, j, arbitrary::<J::Model>());
                        assert(members@.len() == side.members_of(j).len());
                    }
                },
                None => {},
            }
            assert(all.take(i + 1) =~= seen.push(j));
            i += 1;
        }
        proof {
            assert(all.take(i as int) =~= all);
            side.gathered_all(all, arbitrary::<J::Model>());
        }
        entries
    }
}

proof fn listed_rows_lookup<K, V>(keys: Seq<K>, rows: Map<K, V>, k: K)
    ensures
        lookup(entries_map(keys.map_values(|x: K| (x, rows[x]))), k) == (if keys.contains(k) {
            Some(rows[k])
        } else {
            None
        }),
    decreases keys.len(),
{
    let entries = keys.map_values(|x: K| (x, rows[x]));
    if keys.len() > 0 {
        let rest = keys.drop_last();
        assert(entries.drop_last() =~= rest.map_values(|x: K| (x, rows[x])));
        listed_rows_lookup(rest, rows, k);
        assert(keys.contains(k) <==> rest.contains(k) || k == keys.last()) by {
            if rest.contains(k) {
                let i = choose|i: int| 0 <= i < rest.len() && rest[i] == k;
                assert(keys[i] == k);
            }
            assert(keys[keys.len() - 1] == keys.last());
            if keys.contains(k) {
                let i = choose|i: int| 0 <= i < keys.len() && keys[i] == k;
                if i < rest.len() {
                    assert(rest[i] == k);
                }
            }
        }
    } else {
        assert(entries =~= Seq::empty());
    }
}

impl<K, V, J> Side<K, V, J> {
    /// The rows that have a join key, each once.
    pub proof fn matches_lookup(self, j: J, k: K)
        requires
            self.wf(),
        ensures
            entry_keys(self.matches_of(j)) == self.members_of(j),
            self.members_of(j).no_duplicates(),
            lookup(entries_map(self.matches_of(j)), k) == (if self.rows.contains_key(k)
                && self.keys[k] == j {
                Some(self.rows[k])
            } else {
                None
            }),
    {
        assert(entry_keys(self.matches_of(j)) =~= self.members_of(j));
        listed_rows_lookup(self.members_of(j), self.rows, k);
        assert(self.member(j, k) == (self.keys.contains_key(k) && self.keys[k] == j));
        assert(self.rows.contains_key(k) == self.keys.contains_key(k));
    }
}

/// The side that a source has led to by what it has told, from no rows on: the rows of each join key
/// stand in the order in which they got it.
pub open spec fn side_of<K, V, J>(
    told: Seq<Change<K, V>>,
    jk: spec_fn(K, V) -> Option<J>,
) -> Side<K, V, J> {
    empty_side::<K, V, J>().run(told, jk)
}

/// The rows that a source has come to by what it has told, from no rows on.
pub open spec fn rows_of<K, V>(told: Seq<Change<K, V>>) -> Map<K, V> {
    replay(Map::empty(), told)
}

/// The side that a source has led to has the rows of the source that have a join key, and among those of
/// one join key each of them once.
pub proof fn side_of_source<K, V, J>(told: Seq<Change<K, V>>, jk: spec_fn(K, V) -> Option<J>)
    ensures
        side_of(told, jk).wf(),
        side_of(told, jk).keyed_by(jk),
        side_of(told, jk).tracks(rows_of(told), jk),
        forall|j: J|
            matches_source(#[trigger] side_of(told, jk).matches_of(j), rows_of(told), jk, j),
{
    let none = empty_side::<K, V, J>();
    empty_side_wf::<K, V, J>(jk);
    none.run_effect(told, jk);
    none.tracks_run(Map::empty(), told, jk);
    assert forall|j: J|
        matches_source(#[trigger] side_of(told, jk).matches_of(j), rows_of(told), jk, j) by {
        side_of(told, jk).matches_of_source(rows_of(told), jk, j);
    }
}

/// The rows of a map that have a join key, each once.
pub open spec fn matches_source<K, V, J>(
    matched: Seq<(K, V)>,
    m: Map<K, V>,
    jk: spec_fn(K, V) -> Option<J>,
    j: J,
) -> bool {
    &&& entry_keys(matched).no_duplicates()
    &&& forall|k: K| #[trigger]
        lookup(entries_map(matched), k) == (if m.contains_key(k) && jk(k, m[k]) == Some(j) {
            Some(m[k])
        } else {
            None
        })
}

impl<K, V, J> Side<K, V, J> {
    /// The side holds the rows of a map that have a join key.
    pub open spec fn tracks(self, m: Map<K, V>, jk: spec_fn(K, V) -> Option<J>) -> bool {
        forall|k: K| #[trigger]
            lookup(self.rows, k) == (match lookup(m, k) {
                Some(v) => if jk(k, v) is Some {
                    Some(v)
                } else {
                    None
                },
                None => None,
            })
    }

    /// The rows of a side that have a join key are those of its source that have it, each once.
    pub proof fn matches_of_source(self, m: Map<K, V>, jk: spec_fn(K, V) -> Option<J>, j: J)
        requires
            self.wf(),
            self.keyed_by(jk),
            self.tracks(m, jk),
        ensures
            matches_source(self.matches_of(j), m, jk, j),
    {
        let matched = self.matches_of(j);
        assert(entry_keys(matched) =~= self.members_of(j));
        assert forall|k: K| #[trigger]
            lookup(entries_map(matched), k) == (if m.contains_key(k) && jk(k, m[k]) == Some(j) {
                Some(m[k])
            } else {
                None
            }) by {
            self.matches_lookup(j, k);
            let _ = lookup(self.rows, k);
            let _ = lookup(m, k);
            if self.rows.contains_key(k) {
                assert(jk(k, self.rows[k]) == Some(self.keys[k]));
            }
        }
        assert(entry_keys(matched).no_duplicates()) by {
            assert forall|i: int, n: int|
                0 <= i < matched.len() && 0 <= n < matched.len() && i != n implies entry_keys(matched)[i]
                != entry_keys(matched)[n] by {
                self.matches_lookup(j, entry_keys(matched)[i]);
            }
        }
    }

    proof fn tracks_set(self, m: Map<K, V>, jk: spec_fn(K, V) -> Option<J>, k: K, v: V)
        requires
            self.tracks(m, jk),
        ensures
            self.set(k, v, jk(k, v)).tracks(m.insert(k, v), jk),
            self.dropped(k).tracks(m.remove(k), jk),
    {
        assert forall|x: K| #[trigger]
            lookup(self.set(k, v, jk(k, v)).rows, x) == (match lookup(m.insert(k, v), x) {
                Some(w) => if jk(x, w) is Some {
                    Some(w)
                } else {
                    None
                },
                None => None,
            }) by {
            let _ = lookup(self.rows, x);
        }
        assert forall|x: K| #[trigger]
            lookup(self.dropped(k).rows, x) == (match lookup(m.remove(k), x) {
                Some(w) => if jk(x, w) is Some {
                    Some(w)
                } else {
                    None
                },
                None => None,
            }) by {
            let _ = lookup(self.rows, x);
        }
    }

    proof fn tracks_load(entries: Seq<(K, V)>, jk: spec_fn(K, V) -> Option<J>)
        ensures
            empty_side::<K, V, J>().load(entries, jk).tracks(entries_map(entries), jk),
        decreases entries.len(),
    {
        if entries.len() > 0 {
            let rest = entries.drop_last();
            Self::tracks_load(rest, jk);
            empty_side::<K, V, J>().load(rest, jk).tracks_set(
                entries_map(rest),
                jk,
                entries.last().0,
                entries.last().1,
            );
        }
    }

    /// Following changes one part after the other is following them as a whole.
    pub proof fn run_concat(
        self,
        a: Seq<Change<K, V>>,
        b: Seq<Change<K, V>>,
        jk: spec_fn(K, V) -> Option<J>,
    )
        ensures
            self.run(a + b, jk) == self.run(a, jk).run(b, jk),
        decreases b.len(),
    {
        if b.len() > 0 {
            self.run_concat(a, b.drop_last(), jk);
            assert((a + b).drop_last() =~= a + b.drop_last());
            assert((a + b).last() == b.last());
        } else {
            assert(a + b =~= a);
        }
    }

    /// A side follows its source: it holds the rows of the source that have a join key, whatever
    /// changes the source tells.
    pub proof fn tracks_run(
        self,
        m: Map<K, V>,
        steps: Seq<Change<K, V>>,
        jk: spec_fn(K, V) -> Option<J>,
    )
        requires
            self.tracks(m, jk),
        ensures
            self.run(steps, jk).tracks(replay(m, steps), jk),
        decreases steps.len(),
    {
        if steps.len() > 0 {
            let rest = steps.drop_last();
            self.tracks_run(m, rest, jk);
            let side = self.run(rest, jk);
            let before = replay(m, rest);
            match steps.last() {
                Change::Initial { entries } => Self::tracks_load(entries, jk),
                Change::Insert { key, value } => side.tracks_set(before, jk, key, value),
                Change::Remove { key, old_value } => side.tracks_set(before, jk, key, old_value),
                Change::Update { key, old_value, new_value } => side.tracks_set(
                    before,
                    jk,
                    key,
                    new_value,
                ),
            }
        }
    }
}

} // verus!
