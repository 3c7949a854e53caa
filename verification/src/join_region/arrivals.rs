//! The order in which the rows of a map came, and the order in which an event touches them.
use vstd::prelude::*;

use crate::diff::{all_leaves, atoms, change_key, work_of, Change, MapDiff};
use crate::fx::{lists, FxMap};
use crate::index::{entry_keys, without, without_contains};
use crate::merge::{rank_before, sort_ranked, sorted_by, Rank};
use crate::ordered_set::{extend_new, push_new, push_new_contains};
use crate::value::{models, CellValue, MapKey};

verus! {

/// The keys of entries in the order in which they came last.
pub open spec fn last_arrivals<K, V>(entries: Seq<(K, V)>) -> Seq<K>
    decreases entries.len(),
{
    if entries.len() == 0 {
        Seq::empty()
    } else {
        without(last_arrivals(entries.drop_last()), entries.last().0).push(entries.last().0)
    }
}

/// The keys of a map in the order in which they came, after a change.
pub open spec fn live_step<K, V>(live: Seq<K>, change: Change<K, V>) -> Seq<K> {
    match change {
        Change::Initial { entries } => last_arrivals(entries),
        Change::Insert { key, value } => push_new(live, key),
        Change::Remove { key, old_value } => without(live, key),
        Change::Update { key, old_value, new_value } => push_new(live, key),
    }
}

/// The keys of a map in the order in which they came, after changes.
pub open spec fn live_run<K, V>(live: Seq<K>, steps: Seq<Change<K, V>>) -> Seq<K>
    decreases steps.len(),
{
    if steps.len() == 0 {
        live
    } else {
        live_step(live_run(live, steps.drop_last()), steps.last())
    }
}

/// The keys that a change touches: the rows that are there in the order in which they came, then
/// the new ones; or the one row that it names.
pub open spec fn canon_keys<K, V>(live: Seq<K>, change: Change<K, V>) -> Seq<K> {
    match change {
        Change::Initial { entries } => extend_new(live, entry_keys(entries)),
        Change::Insert { key, value } => seq![key],
        Change::Remove { key, old_value } => seq![key],
        Change::Update { key, old_value, new_value } => seq![key],
    }
}

/// Numbers grow along a sequence of distinct keys, which are those that have a number.
pub open spec fn sequenced<K>(numbers: Map<K, u64>, next: u64, live: Seq<K>) -> bool {
    &&& live.no_duplicates()
    &&& forall|k: K| #[trigger] numbers.contains_key(k) <==> live.contains(k)
    &&& forall|i: int, j: int|
        0 <= i < j < live.len() ==> numbers[#[trigger] live[i]] < numbers[#[trigger] live[j]]
    &&& forall|i: int| 0 <= i < live.len() ==> numbers[#[trigger] live[i]] < next
}

/// Each key of a sequence has its place in it as its number, and no other key has one.
pub open spec fn ranked<K>(numbers: Map<K, u64>, keys: Seq<K>) -> bool {
    &&& keys.no_duplicates()
    &&& forall|k: K| #[trigger] numbers.contains_key(k) <==> keys.contains(k)
    &&& forall|i: int| 0 <= i < keys.len() ==> numbers[#[trigger] keys[i]] == i
}

/// There are at most as many keys as numbers below the next.
pub proof fn sequenced_len<K>(numbers: Map<K, u64>, next: u64, live: Seq<K>)
    requires
        sequenced(numbers, next, live),
    ensures
        live.len() <= next,
{
    if live.len() > 0 {
        sequenced_at(numbers, next, live, live.len() - 1);
        assert(numbers[live[live.len() - 1]] < next);
    }
}

proof fn sequenced_at<K>(numbers: Map<K, u64>, next: u64, live: Seq<K>, i: int)
    requires
        sequenced(numbers, next, live),
        0 <= i < live.len(),
    ensures
        numbers[live[i]] >= i,
    decreases i,
{
    if i > 0 {
        sequenced_at(numbers, next, live, i - 1);
        assert(numbers[live[i - 1]] < numbers[live[i]]);
    }
}

/// A new key at the end with the next number.
proof fn sequenced_push<K>(numbers: Map<K, u64>, next: u64, live: Seq<K>, k: K)
    requires
        sequenced(numbers, next, live),
        next < u64::MAX,
    ensures
        !live.contains(k) ==> sequenced(numbers.insert(k, next), (next + 1) as u64, live.push(k)),
        sequenced(numbers, (next + 1) as u64, live),
{
    if !live.contains(k) {
        let after = live.push(k);
        let m = numbers.insert(k, next);
        push_new_contains(live, k);
        assert forall|i: int| 0 <= i < live.len() implies live[i] != k by {
            assert(live.contains(live[i]));
        }
        assert forall|i: int, j: int| 0 <= i < j < after.len() implies m[#[trigger] after[i]]
            < m[#[trigger] after[j]] by {
            assert(after[i] == live[i]);
            if j < live.len() {
                assert(after[j] == live[j]);
                assert(numbers[live[i]] < numbers[live[j]]);
            } else {
                assert(numbers[live[i]] < next);
            }
        }
        assert forall|i: int| 0 <= i < after.len() implies m[#[trigger] after[i]] < next + 1 by {
            if i < live.len() {
                assert(after[i] == live[i]);
                assert(numbers[live[i]] < next);
            }
        }
    }
}

/// The place of each element that stays.
proof fn without_places<K>(s: Seq<K>, x: K, i: int, j: int)
    requires
        s.no_duplicates(),
        0 <= i < j < without(s, x).len(),
    ensures
        exists|a: int, b: int|
            0 <= a < b < s.len() && #[trigger] s[a] == without(s, x)[i] && #[trigger] s[b] == without(
                s,
                x,
            )[j],
    decreases s.len(),
{
    let rest = s.drop_last();
    let w = without(rest, x);
    without_contains(rest, x);
    without_contains(s, x);
    if s.last() == x {
        without_places(rest, x, i, j);
        let (a, b) = choose|a: int, b: int|
            0 <= a < b < rest.len() && #[trigger] rest[a] == w[i] && #[trigger] rest[b] == w[j];
        assert(s[a] == rest[a] && s[b] == rest[b]);
    } else if j < w.len() {
        without_places(rest, x, i, j);
        let (a, b) = choose|a: int, b: int|
            0 <= a < b < rest.len() && #[trigger] rest[a] == w[i] && #[trigger] rest[b] == w[j];
        assert(s[a] == rest[a] && s[b] == rest[b]);
        assert(without(s, x)[i] == w[i] && without(s, x)[j] == w[j]);
    } else {
        assert(without(s, x)[i] == w[i]);
        assert(w.contains(w[i]));
        assert(rest.contains(w[i]));
        let a = choose|a: int| 0 <= a < rest.len() && rest[a] == w[i];
        assert(s[a] == w[i]);
        assert(s[s.len() - 1] == without(s, x)[j]);
    }
}

/// A key that goes.
proof fn sequenced_without<K>(numbers: Map<K, u64>, next: u64, live: Seq<K>, k: K)
    requires
        sequenced(numbers, next, live),
    ensures
        sequenced(numbers.remove(k), next, without(live, k)),
{
    let after = without(live, k);
    let m = numbers.remove(k);
    without_contains(live, k);
    assert forall|i: int| 0 <= i < after.len() implies after[i] != k && live.contains(after[i]) by {
        assert(after.contains(after[i]));
    }
    assert forall|i: int, j: int| 0 <= i < j < after.len() implies m[#[trigger] after[i]]
        < m[#[trigger] after[j]] by {
        without_places(live, k, i, j);
        let (a, b) = choose|a: int, b: int|
            0 <= a < b < live.len() && #[trigger] live[a] == after[i] && #[trigger] live[b] == after[j];
        assert(numbers[live[a]] < numbers[live[b]]);
        assert(after[i] != k && after[j] != k);
    }
    assert forall|i: int| 0 <= i < after.len() implies m[#[trigger] after[i]] < next by {
        assert(after[i] != k && live.contains(after[i]));
        let a = choose|a: int| 0 <= a < live.len() && live[a] == after[i];
        assert(numbers[live[a]] < next);
    }
}

/// Two sequences of the same distinct keys along which the same numbers grow are equal.
pub proof fn same_order<K>(a: Seq<K>, b: Seq<K>, number: spec_fn(K) -> int)
    requires
        a.no_duplicates(),
        b.no_duplicates(),
        forall|k: K| a.contains(k) <==> b.contains(k),
        forall|i: int, j: int|
            0 <= i < j < a.len() ==> number(#[trigger] a[i]) < number(#[trigger] a[j]),
        forall|i: int, j: int|
            0 <= i < j < b.len() ==> number(#[trigger] b[i]) < number(#[trigger] b[j]),
    ensures
        a == b,
    decreases a.len(),
{
    if a.len() == 0 {
        if b.len() > 0 {
            assert(b.contains(b[0]));
            assert(a.contains(b[0]));
        }
        assert(a =~= b);
    } else {
        assert(a.contains(a[0]));
        assert(b.contains(a[0]));
        let x = a.last();
        let y = b.last();
        assert(a.contains(x)) by {
            assert(a[a.len() - 1] == x);
        }
        assert(b.contains(y)) by {
            assert(b[b.len() - 1] == y);
        }
        let i = choose|i: int| 0 <= i < b.len() && b[i] == x;
        let j = choose|j: int| 0 <= j < a.len() && a[j] == y;
        if i < b.len() - 1 {
            assert(number(b[i]) < number(b[b.len() - 1]));
            if j < a.len() - 1 {
                assert(number(a[j]) < number(a[a.len() - 1]));
            }
        }
        assert(x == y);
        let ra = a.drop_last();
        let rb = b.drop_last();
        assert forall|k: K| ra.contains(k) <==> rb.contains(k) by {
            if ra.contains(k) {
                let n = choose|n: int| 0 <= n < ra.len() && ra[n] == k;
                assert(a[n] == k && k != x);
                assert(a.contains(k));
                assert(b.contains(k));
                let m = choose|m: int| 0 <= m < b.len() && b[m] == k;
                assert(rb[m] == k);
            }
            if rb.contains(k) {
                let n = choose|n: int| 0 <= n < rb.len() && rb[n] == k;
                assert(b[n] == k && k != y);
                assert(b.contains(k));
                assert(a.contains(k));
                let m = choose|m: int| 0 <= m < a.len() && a[m] == k;
                assert(ra[m] == k);
            }
        }
        assert forall|i: int, j: int| 0 <= i < j < ra.len() implies number(#[trigger] ra[i]) < number(
            #[trigger] ra[j],
        ) by {
            assert(ra[i] == a[i] && ra[j] == a[j]);
        }
        assert forall|i: int, j: int| 0 <= i < j < rb.len() implies number(#[trigger] rb[i]) < number(
            #[trigger] rb[j],
        ) by {
            assert(rb[i] == b[i] && rb[j] == b[j]);
        }
        same_order(ra, rb, number);
        assert(a =~= ra.push(x));
        assert(b =~= rb.push(y));
    }
}

/// The order in which the rows of a map came: a number for each key, in growing order.
#[verifier::reject_recursive_types(K)]
pub struct Arrivals<K: MapKey> {
    key_sequence: FxMap<K, u64>,
    next_sequence: u64,
    live: Ghost<Seq<K::Model>>,
}

impl<K: MapKey> Arrivals<K> {
    /// The keys in the order in which they came.
    pub closed spec fn live(&self) -> Seq<K::Model> {
        self.live@
    }

    /// The number of the next key.
    pub closed spec fn next(&self) -> u64 {
        self.next_sequence
    }

    /// The numbers of the keys.
    pub closed spec fn numbers(&self) -> Map<K::Model, u64> {
        self.key_sequence@
    }

    pub open spec fn wf(&self) -> bool {
        sequenced(self.numbers(), self.next(), self.live())
    }

    /// There are numbers left for as many keys as the changes name.
    pub open spec fn room<V>(&self, steps: Seq<Change<K::Model, V>>) -> bool {
        self.next() + work_of(steps) <= u64::MAX
    }

    /// Whether there are numbers left for this many keys, and for as many as a machine word can tell.
    pub fn has_room(&self, work: usize) -> (room: bool)
        ensures
            room == (self.next() + work <= u64::MAX && work < usize::MAX),
    {
        work < usize::MAX && work as u64 <= u64::MAX - self.next_sequence
    }

    pub fn new() -> (arrivals: Self)
        ensures
            arrivals.wf(),
            arrivals.live() == Seq::<K::Model>::empty(),
            arrivals.next() == 0,
    {
        Arrivals { key_sequence: FxMap::new(), next_sequence: 0, live: Ghost(Seq::empty()) }
    }

    /// A copy that can follow changes on its own.
    fn duplicate(&self) -> (copy: Self)
        requires
            self.wf(),
        ensures
            copy.wf(),
            copy.live() == self.live(),
            copy.next() == self.next(),
            copy.numbers() == self.numbers(),
    {
        let keys = self.key_sequence.keys();
        let ghost all = models(keys@);
        let mut key_sequence: FxMap<K, u64> = FxMap::new();
        let mut i: usize = 0;
        while i < keys.len()
            invariant
                i <= keys@.len(),
                all == models(keys@),
                lists(all, self.key_sequence@.dom()),
                forall|k: K::Model| #[trigger]
                    key_sequence@.contains_key(k) <==> all.take(i as int).contains(k),
                forall|k: K::Model| #[trigger]
                    key_sequence@.contains_key(k) ==> key_sequence@[k] == self.key_sequence@[k],
            decreases keys@.len() - i,
        {
            let ghost k = all[i as int];
            proof {
                assert(all.contains(k));
                assert(self.key_sequence@.dom().contains(k));
                let part = all.take(i as int);
                assert(all.take(i + 1) =~= part.push(k));
                assert forall|x: K::Model| part.push(k).contains(x) <==> part.contains(x) || x == k by {
                    if part.contains(x) {
                        let n = choose|n: int| 0 <= n < part.len() && part[n] == x;
                        assert(part.push(k)[n] == x);
                    }
                    assert(part.push(k)[part.len() as int] == k);
                }
            }
            match self.key_sequence.get(&keys[i]) {
                Some(number) => {
                    key_sequence.insert(keys[i].clone_value(), *number);
                },
                None => {},
            }
            i += 1;
        }
        proof {
            assert(all.take(i as int) =~= all);
            assert forall|k: K::Model| #[trigger] key_sequence@.contains_key(k)
                == self.key_sequence@.contains_key(k) by {
                assert(all.contains(k) <==> self.key_sequence@.dom().contains(k));
            }
            assert(key_sequence@ =~= self.key_sequence@);
        }
        Arrivals { key_sequence, next_sequence: self.next_sequence, live: Ghost(self.live@) }
    }

    /// The numbers of the keys.
    pub(crate) fn number_map(&self) -> (numbers: &FxMap<K, u64>)
        ensures
            numbers@ == self.numbers(),
    {
        &self.key_sequence
    }

    /// The keys in the order in which they came.
    pub fn live_keys(&self) -> (keys: Vec<K>)
        requires
            self.wf(),
        ensures
            models(keys@) == self.live(),
    {
        let keys = self.key_sequence.keys();
        let ghost all = models(keys@);
        let mut items: Vec<(Rank, K)> = Vec::new();
        let mut i: usize = 0;
        while i < keys.len()
            invariant
                i <= keys@.len(),
                all == models(keys@),
                lists(all, self.key_sequence@.dom()),
                items@.len() == i,
                forall|n: int|
                    0 <= n < i ==> (#[trigger] items@[n]).1.model() == all[n] && items@[n].0 == (
                        self.key_sequence@[all[n]],
                        0u64,
                        0u64,
                        0u64,
                    ),
            decreases keys@.len() - i,
        {
            proof {
                assert(all.contains(all[i as int]));
                assert(self.key_sequence@.dom().contains(all[i as int]));
            }
            let number: u64 = match self.key_sequence.get(&keys[i]) {
                Some(number) => *number,
                None => 0,
            };
            items.push(((number, 0, 0, 0), keys[i].clone_value()));
            i += 1;
        }
        let ghost before = items@;
        sort_ranked(&mut items);
        let ghost after = items@;
        let ghost order = choose|order: Seq<int>| #[trigger] sorted_by(before, after, order);
        let mut sorted: Vec<K> = Vec::new();
        let mut n: usize = 0;
        while n < items.len()
            invariant
                n <= items@.len(),
                items@ == after,
                sorted@.len() == n,
                forall|x: int| 0 <= x < n ==> (#[trigger] sorted@[x]).model() == after[x].1.model(),
            decreases items@.len() - n,
        {
            sorted.push(items[n].1.clone_value());
            n += 1;
        }
        proof {
            let s = models(sorted@);
            let number = |k: K::Model| self.key_sequence@[k] as int;
            assert forall|x: int| 0 <= x < s.len() implies #[trigger] s[x] == all[order[x]] && after[x].0.0
                == self.key_sequence@[s[x]] && after[x].0 == (after[x].0.0, 0u64, 0u64, 0u64) by {
                assert(after[x] == before[order[x]]);
                assert(0 <= order[x] < before.len());
            }
            assert(s.no_duplicates()) by {
                assert forall|x: int, y: int| 0 <= x < s.len() && 0 <= y < s.len() && x != y implies s[x]
                    != s[y] by {
                    assert(order[x] != order[y]);
                    assert(0 <= order[x] < before.len() && 0 <= order[y] < before.len());
                    assert(all[order[x]] != all[order[y]]);
                }
            }
            assert forall|k: K::Model| s.contains(k) <==> self.live().contains(k) by {
                assert(all.contains(k) <==> self.key_sequence@.dom().contains(k));
                assert(self.numbers().contains_key(k) <==> self.live().contains(k));
                if s.contains(k) {
                    let x = choose|x: int| 0 <= x < s.len() && s[x] == k;
                    assert(s[x] == all[order[x]]);
                    assert(0 <= order[x] < before.len());
                }
                if all.contains(k) {
                    let t = choose|t: int| 0 <= t < all.len() && all[t] == k;
                    crate::join_runtime::sharded_laws::order_covers(order, before.len(), t);
                    let x = choose|x: int| 0 <= x < before.len() && order[x] == t;
                    assert(s[x] == all[order[x]]);
                }
            }
            assert forall|x: int, y: int| 0 <= x < y < s.len() implies number(#[trigger] s[x]) < number(
                #[trigger] s[y],
            ) by {
                assert(rank_before(after[x].0, after[y].0) || (after[x].0 == after[y].0 && order[x]
                    < order[y]));
                let a = s[x];
                let b = s[y];
                assert(a != b);
                assert(self.live().contains(a) && self.live().contains(b)) by {
                    assert(s.contains(a) && s.contains(b));
                }
                let i = choose|i: int| 0 <= i < self.live().len() && self.live()[i] == a;
                let j = choose|j: int| 0 <= j < self.live().len() && self.live()[j] == b;
                if i < j {
                    assert(self.numbers()[self.live()[i]] < self.numbers()[self.live()[j]]);
                } else {
                    assert(self.numbers()[self.live()[j]] < self.numbers()[self.live()[i]]);
                }
            }
            assert forall|x: int, y: int| 0 <= x < y < self.live().len() implies number(
                #[trigger] self.live()[x],
            ) < number(#[trigger] self.live()[y]) by {}
            same_order(s, self.live(), number);
        }
        sorted
    }

    fn arrive(&mut self, key: &K)
        requires
            old(self).wf(),
            old(self).next() < u64::MAX,
        ensures
            final(self).wf(),
            final(self).live() == push_new(old(self).live(), key.model()),
            final(self).next() <= old(self).next() + 1,
    {
        proof {
            sequenced_push(self.numbers(), self.next(), self.live(), key.model());
        }
        if !self.key_sequence.contains_key(key) {
            self.key_sequence.insert(key.clone_value(), self.next_sequence);
            self.next_sequence = self.next_sequence + 1;
            self.live = Ghost(push_new(self.live@, key.model()));
        }
    }

    fn arrive_last(&mut self, key: &K)
        requires
            old(self).wf(),
            old(self).next() < u64::MAX,
        ensures
            final(self).wf(),
            final(self).live() == without(old(self).live(), key.model()).push(key.model()),
            final(self).next() == old(self).next() + 1,
    {
        proof {
            let k = key.model();
            sequenced_without(self.numbers(), self.next(), self.live(), k);
            without_contains(self.live(), k);
            sequenced_push(self.numbers().remove(k), self.next(), without(self.live(), k), k);
            assert(self.numbers().remove(k).insert(k, self.next()) =~= self.numbers().insert(
                k,
                self.next(),
            ));
        }
        self.key_sequence.insert(key.clone_value(), self.next_sequence);
        self.next_sequence = self.next_sequence + 1;
        self.live = Ghost(without(self.live@, key.model()).push(key.model()));
    }

    fn remember_change<V: CellValue>(&mut self, leaf: &MapDiff<K, V>)
        requires
            old(self).wf(),
            !(leaf is Batch),
            old(self).room(seq![leaf.atom()]),
        ensures
            final(self).wf(),
            final(self).live() == live_step(old(self).live(), leaf.atom()),
            final(self).next() <= old(self).next() + work_of(seq![leaf.atom()]),
    {
        proof {
            one_work(leaf.atom());
        }
        match leaf {
            MapDiff::Initial { entries } => {
                let ghost all = models(entries@);
                self.key_sequence.clear();
                self.next_sequence = 0;
                self.live = Ghost(Seq::empty());
                let mut i: usize = 0;
                assert(all.take(0) =~= Seq::empty());
                while i < entries.len()
                    invariant
                        i <= entries@.len(),
                        all == models(entries@),
                        entries@.len() <= u64::MAX,
                        self.wf(),
                        self.next() == i,
                        self.live() == last_arrivals(all.take(i as int)),
                    decreases entries@.len() - i,
                {
                    proof {
                        assert(all.take(i + 1).drop_last() =~= all.take(i as int));
                        assert(all.take(i + 1).last() == entries@[i as int].model());
                    }
                    self.arrive_last(&entries[i].0);
                    i += 1;
                }
                assert(all.take(i as int) =~= all);
            },
            MapDiff::Insert { key, .. } => self.arrive(key),
            MapDiff::Update { key, .. } => self.arrive(key),
            MapDiff::Remove { key, .. } => {
                proof {
                    sequenced_without(self.numbers(), self.next(), self.live(), key.model());
                }
                self.key_sequence.remove(key);
                self.live = Ghost(without(self.live@, key.model()));
            },
            MapDiff::Batch { .. } => {},
        }
    }

    /// Follows the changes of a diff.
    pub fn remember<V: CellValue>(&mut self, diff: &MapDiff<K, V>)
        requires
            old(self).wf(),
            old(self).room(diff.steps()),
        ensures
            final(self).wf(),
            final(self).live() == live_run(old(self).live(), diff.steps()),
            final(self).next() <= old(self).next() + work_of(diff.steps()),
    {
        let ghost steps = diff.steps();
        let leaves = diff.leaves();
        let mut i: usize = 0;
        assert(steps.take(0) =~= Seq::empty());
        while i < leaves.len()
            invariant
                i <= leaves@.len(),
                all_leaves(leaves@),
                atoms(leaves@) == steps,
                old(self).room(steps),
                self.wf(),
                self.live() == live_run(old(self).live(), steps.take(i as int)),
                self.next() <= old(self).next() + work_of(steps.take(i as int)),
            decreases leaves@.len() - i,
        {
            proof {
                next_work(steps, i as int);
                assert(steps[i as int] == leaves@[i as int].atom());
            }
            self.remember_change(leaves[i]);
            i += 1;
        }
        assert(steps.take(i as int) =~= steps);
    }
}

proof fn one_work<K, V>(change: Change<K, V>)
    ensures
        work_of(seq![change]) == match change {
            Change::Initial { entries } => entries.len(),
            _ => 1,
        },
{
    let s = seq![change];
    assert(s.drop_last() =~= Seq::empty());
    assert(work_of(s.drop_last()) == 0);
    assert(s.last() == change);
}

/// The work of the first changes grows change by change, and stays within that of all.
pub proof fn next_work<K, V>(steps: Seq<Change<K, V>>, i: int)
    requires
        0 <= i < steps.len(),
    ensures
        work_of(steps.take(i + 1)) == work_of(steps.take(i)) + work_of(seq![steps[i]]),
        work_of(steps.take(i + 1)) <= work_of(steps),
        steps.take(i + 1).drop_last() =~= steps.take(i),
        steps.take(i + 1).last() == steps[i],
{
    assert(steps.take(i + 1).drop_last() =~= steps.take(i));
    one_work(steps[i]);
    work_grows(steps, i + 1);
}

proof fn work_grows<K, V>(steps: Seq<Change<K, V>>, i: int)
    requires
        0 <= i <= steps.len(),
    ensures
        work_of(steps.take(i)) <= work_of(steps),
    decreases steps.len() - i,
{
    if i < steps.len() {
        work_grows(steps, i + 1);
        assert(steps.take(i + 1).drop_last() =~= steps.take(i));
    } else {
        assert(steps.take(i) =~= steps);
    }
}

/// A number and the one after it, as far as there is one.
pub open spec fn saturating_next(n: u64) -> u64 {
    if n == u64::MAX {
        n
    } else {
        (n + 1) as u64
    }
}

/// How far the ordering of the touched keys of an event has come: the keys of the map, the number of
/// each touched key, and the next number.
#[verifier::reject_recursive_types(K)]
pub struct MergeOrder<K> {
    pub live: Seq<K>,
    pub order: Map<K, u64>,
    pub next: u64,
}

/// The numbers once each key of a sequence has its place in it as its number.
pub open spec fn number_all<K>(order: Map<K, u64>, keys: Seq<K>) -> Map<K, u64>
    decreases keys.len(),
{
    if keys.len() == 0 {
        order
    } else {
        number_all(order, keys.drop_last()).insert(keys.last(), (keys.len() - 1) as u64)
    }
}

/// The numbers and the next number once each key without a number has got the next in turn.
pub open spec fn number_new<K>(order: Map<K, u64>, next: u64, keys: Seq<K>) -> (Map<K, u64>, u64)
    decreases keys.len(),
{
    if keys.len() == 0 {
        (order, next)
    } else {
        let (o, n) = number_new(order, next, keys.drop_last());
        if o.contains_key(keys.last()) {
            (o, n)
        } else {
            (o.insert(keys.last(), n), saturating_next(n))
        }
    }
}

impl<K> MergeOrder<K> {
    /// A touched key without a number gets the next.
    pub open spec fn touch(self, k: K) -> MergeOrder<K> {
        if self.order.contains_key(k) {
            self
        } else {
            MergeOrder {
                order: self.order.insert(k, self.next),
                next: saturating_next(self.next),
                ..self
            }
        }
    }

    /// A change numbers the keys that it touches. A new beginning numbers them afresh: the keys of
    /// the map in the order in which they came, then those without a number.
    pub open spec fn step<V>(self, change: Change<K, V>) -> MergeOrder<K> {
        let touched = match change {
            Change::Initial { entries } => MergeOrder {
                order: number_new(
                    number_all(self.order, self.live),
                    self.live.len() as u64,
                    entry_keys(entries),
                ).0,
                ..self
            },
            Change::Insert { key, value } => self.touch(key),
            Change::Remove { key, old_value } => self.touch(key),
            Change::Update { key, old_value, new_value } => self.touch(key),
        };
        MergeOrder { live: live_step(self.live, change), ..touched }
    }

    pub open spec fn run<V>(self, steps: Seq<Change<K, V>>) -> MergeOrder<K>
        decreases steps.len(),
    {
        if steps.len() == 0 {
            self
        } else {
            self.run(steps.drop_last()).step(steps.last())
        }
    }
}

fn rank_initial<K: MapKey, V: CellValue>(
    order: &mut FxMap<K, u64>,
    live: &Vec<K>,
    entries: &Vec<(K, V)>,
)
    ensures
        final(order)@ == number_new(
            number_all(old(order)@, models(live@)),
            live@.len() as u64,
            entry_keys(models(entries@)),
        ).0,
{
    let ghost keys = models(live@);
    let ghost names = entry_keys(models(entries@));
    let mut i: usize = 0;
    assert(keys.take(0) =~= Seq::empty());
    while i < live.len()
        invariant
            i <= live@.len(),
            keys == models(live@),
            order@ == number_all(old(order)@, keys.take(i as int)),
        decreases live@.len() - i,
    {
        proof {
            assert(keys.take(i + 1).drop_last() =~= keys.take(i as int));
            assert(keys.take(i + 1).last() == live@[i as int].model());
        }
        order.insert(live[i].clone_value(), i as u64);
        i += 1;
    }
    assert(keys.take(i as int) =~= keys);
    let ghost base = order@;
    let mut next: u64 = live.len() as u64;
    let mut n: usize = 0;
    assert(names.take(0) =~= Seq::empty());
    while n < entries.len()
        invariant
            n <= entries@.len(),
            names == entry_keys(models(entries@)),
            (order@, next) == number_new(base, live@.len() as u64, names.take(n as int)),
        decreases entries@.len() - n,
    {
        proof {
            assert(names.take(n + 1).drop_last() =~= names.take(n as int));
            assert(names.take(n + 1).last() == entries@[n as int].0.model());
        }
        if !order.contains_key(&entries[n].0) {
            order.insert(entries[n].0.clone_value(), next);
            next = next.saturating_add(1);
        }
        n += 1;
    }
    assert(names.take(n as int) =~= names);
}

impl<K: MapKey> Arrivals<K> {
    /// The order in which an event touches the keys of the map.
    pub fn merge_order<V: CellValue>(&self, diff: &MapDiff<K, V>) -> (order: FxMap<K, u64>)
        requires
            self.wf(),
            self.room(diff.steps()),
        ensures
            order@ == (MergeOrder { live: self.live(), order: Map::empty(), next: 0 }).run(
                diff.steps(),
            ).order,
    {
        let ghost steps = diff.steps();
        let ghost start = MergeOrder::<K::Model> { live: self.live(), order: Map::empty(), next: 0 };
        let mut existing = self.duplicate();
        let mut order: FxMap<K, u64> = FxMap::new();
        let mut next: u64 = 0;
        let leaves = diff.leaves();
        let mut i: usize = 0;
        assert(steps.take(0) =~= Seq::empty());
        while i < leaves.len()
            invariant
                i <= leaves@.len(),
                all_leaves(leaves@),
                atoms(leaves@) == steps,
                self.room(steps),
                existing.wf(),
                existing.next() <= self.next() + work_of(steps.take(i as int)),
                start.run(steps.take(i as int)) == (MergeOrder {
                    live: existing.live(),
                    order: order@,
                    next,
                }),
            decreases leaves@.len() - i,
        {
            proof {
                next_work(steps, i as int);
                assert(steps[i as int] == leaves@[i as int].atom());
            }
            match leaves[i] {
                MapDiff::Initial { entries } => {
                    let live = existing.live_keys();
                    assert(models(live@).len() == live@.len());
                    rank_initial(&mut order, &live, entries);
                },
                MapDiff::Insert { key, .. } => {
                    if !order.contains_key(key) {
                        order.insert(key.clone_value(), next);
                        next = next.saturating_add(1);
                    }
                },
                MapDiff::Update { key, .. } => {
                    if !order.contains_key(key) {
                        order.insert(key.clone_value(), next);
                        next = next.saturating_add(1);
                    }
                },
                MapDiff::Remove { key, .. } => {
                    if !order.contains_key(key) {
                        order.insert(key.clone_value(), next);
                        next = next.saturating_add(1);
                    }
                },
                MapDiff::Batch { .. } => {},
            }
            existing.remember_change(leaves[i]);
            i += 1;
        }
        assert(steps.take(i as int) =~= steps);
        order
    }

    /// For each change of an event on its own, the order in which it touches the keys of the map.
    pub fn event_orders<V: CellValue>(&self, diff: &MapDiff<K, V>) -> (orders: Vec<FxMap<K, u64>>)
        requires
            self.wf(),
            self.room(diff.steps()),
        ensures
            orders@.len() == diff.steps().len(),
            forall|i: int|
                0 <= i < orders@.len() ==> ranked(
                    (#[trigger] orders@[i])@,
                    canon_keys(live_run(self.live(), diff.steps().take(i)), diff.steps()[i]),
                ),
    {
        let ghost steps = diff.steps();
        let mut existing = self.duplicate();
        let mut orders: Vec<FxMap<K, u64>> = Vec::new();
        let leaves = diff.leaves();
        let mut i: usize = 0;
        assert(steps.take(0) =~= Seq::empty());
        while i < leaves.len()
            invariant
                i <= leaves@.len(),
                all_leaves(leaves@),
                atoms(leaves@) == steps,
                self.room(steps),
                existing.wf(),
                existing.next() <= self.next() + work_of(steps.take(i as int)),
                existing.live() == live_run(self.live(), steps.take(i as int)),
                orders@.len() == i,
                forall|n: int|
                    0 <= n < i ==> ranked(
                        (#[trigger] orders@[n])@,
                        canon_keys(live_run(self.live(), steps.take(n)), steps[n]),
                    ),
            decreases leaves@.len() - i,
        {
            proof {
                next_work(steps, i as int);
                assert(steps[i as int] == leaves@[i as int].atom());
            }
            let mut event: FxMap<K, u64> = FxMap::new();
            match leaves[i] {
                MapDiff::Initial { entries } => {
                    let live = existing.live_keys();
                    rank_initial(&mut event, &live, entries);
                    proof {
                        assert(models(live@).len() == live@.len());
                        assert(models(entries@).len() == entries@.len());
                        sequenced_len(existing.numbers(), existing.next(), existing.live());
                        one_work(leaves@[i as int].atom());
                        initial_ranks(models(live@), entry_keys(models(entries@)));
                    }
                },
                MapDiff::Insert { key, .. } => {
                    event.insert(key.clone_value(), 0);
                    proof {
                        one_rank(key.model());
                    }
                },
                MapDiff::Update { key, .. } => {
                    event.insert(key.clone_value(), 0);
                    proof {
                        one_rank(key.model());
                    }
                },
                MapDiff::Remove { key, .. } => {
                    event.insert(key.clone_value(), 0);
                    proof {
                        one_rank(key.model());
                    }
                },
                MapDiff::Batch { .. } => {},
            }
            existing.remember_change(leaves[i]);
            orders.push(event);
            i += 1;
        }
        assert(steps.take(i as int) =~= steps);
        orders
    }
}

proof fn one_rank<K>(k: K)
    ensures
        ranked(Map::<K, u64>::empty().insert(k, 0), seq![k]),
{
    let m = Map::<K, u64>::empty().insert(k, 0);
    assert forall|x: K| #[trigger] m.contains_key(x) <==> seq![k].contains(x) by {
        assert(seq![k][0] == k);
    }
}

proof fn number_all_ranks<K>(keys: Seq<K>)
    requires
        keys.no_duplicates(),
        keys.len() <= u64::MAX,
    ensures
        ranked(number_all(Map::empty(), keys), keys),
    decreases keys.len(),
{
    if keys.len() > 0 {
        let rest = keys.drop_last();
        number_all_ranks(rest);
        ranked_push(number_all(Map::empty(), rest), rest, keys.last());
        assert(rest.push(keys.last()) =~= keys);
        assert(!rest.contains(keys.last()));
    }
}

proof fn ranked_push<K>(numbers: Map<K, u64>, keys: Seq<K>, k: K)
    requires
        ranked(numbers, keys),
        !keys.contains(k),
        keys.len() < u64::MAX,
    ensures
        ranked(numbers.insert(k, keys.len() as u64), keys.push(k)),
{
    push_new_contains(keys, k);
    let m = numbers.insert(k, keys.len() as u64);
    let after = keys.push(k);
    assert forall|i: int| 0 <= i < after.len() implies m[#[trigger] after[i]] == i by {
        if i < keys.len() {
            assert(after[i] == keys[i]);
            assert(keys.contains(keys[i]));
        }
    }
}

proof fn number_new_ranks<K>(live: Seq<K>, names: Seq<K>)
    requires
        live.no_duplicates(),
        live.len() + names.len() <= u64::MAX,
    ensures
        ({
            let (o, n) = number_new(number_all(Map::empty(), live), live.len() as u64, names);
            &&& ranked(o, extend_new(live, names))
            &&& n == extend_new(live, names).len()
            &&& extend_new(live, names).len() <= live.len() + names.len()
        }),
    decreases names.len(),
{
    if names.len() == 0 {
        number_all_ranks(live);
    } else {
        let rest = names.drop_last();
        number_new_ranks(live, rest);
        let (o, n) = number_new(number_all(Map::empty(), live), live.len() as u64, rest);
        let seen = extend_new(live, rest);
        if !seen.contains(names.last()) {
            ranked_push(o, seen, names.last());
        }
    }
}

/// A new beginning on its own numbers the keys of the map in the order in which they came, then the
/// new ones.
pub proof fn initial_ranks<K>(live: Seq<K>, names: Seq<K>)
    requires
        live.no_duplicates(),
        live.len() + names.len() <= u64::MAX,
    ensures
        ranked(
            number_new(number_all(Map::empty(), live), live.len() as u64, names).0,
            extend_new(live, names),
        ),
{
    number_new_ranks(live, names);
}

/// The first changes of several that name a key.
pub open spec fn names_first<K, V>(steps: Seq<Change<K, V>>, k: K, i: int) -> bool {
    &&& 0 <= i < steps.len()
    &&& change_key(steps[i]) == Some(k)
    &&& forall|j: int| 0 <= j < i ==> change_key(#[trigger] steps[j]) != Some(k)
}

/// An event without a new beginning numbers the keys that it touches in the order in which it touches
/// them first, and no other.
pub proof fn numbered_in_order_of_touch<K, V>(live: Seq<K>, steps: Seq<Change<K, V>>)
    requires
        steps.len() <= u64::MAX,
        forall|i: int| 0 <= i < steps.len() ==> change_key(#[trigger] steps[i]) is Some,
    ensures
        forall|k: K| #[trigger]
            (MergeOrder { live, order: Map::empty(), next: 0 }).run(steps).order.contains_key(k)
                <==> exists|i: int| names_first(steps, k, i),
        forall|a: K, i: int, b: K, j: int|
            i < j && #[trigger] names_first(steps, a, i) && #[trigger] names_first(steps, b, j) ==> (
            MergeOrder { live, order: Map::empty(), next: 0 }).run(steps).order[a] < (MergeOrder {
                live,
                order: Map::empty(),
                next: 0,
            }).run(steps).order[b],
        forall|k: K| #[trigger]
            (MergeOrder { live, order: Map::empty(), next: 0 }).run(steps).order.contains_key(k) ==> (
            MergeOrder { live, order: Map::empty(), next: 0 }).run(steps).order[k] < (MergeOrder {
                live,
                order: Map::empty(),
                next: 0,
            }).run(steps).next,
        (MergeOrder { live, order: Map::empty(), next: 0 }).run(steps).next <= steps.len(),
    decreases steps.len(),
{
    let begin = MergeOrder { live, order: Map::<K, u64>::empty(), next: 0 };
    if steps.len() > 0 {
        let rest = steps.drop_last();
        let n = steps.len() - 1;
        numbered_in_order_of_touch(live, rest);
        let mid = begin.run(rest);
        let after = begin.run(steps);
        let last = change_key(steps[n])->Some_0;
        assert(after.order == mid.touch(last).order && after.next == mid.touch(last).next);
        assert forall|k: K, i: int| i < n implies names_first(rest, k, i) == names_first(steps, k, i) by {
            if names_first(rest, k, i) {
                assert forall|j: int| 0 <= j < i implies change_key(#[trigger] steps[j]) != Some(k) by {
                    assert(rest[j] == steps[j]);
                }
            }
            if names_first(steps, k, i) {
                assert forall|j: int| 0 <= j < i implies change_key(#[trigger] rest[j]) != Some(k) by {
                    assert(rest[j] == steps[j]);
                }
            }
        }
        assert forall|k: K| names_first(steps, k, n) <==> k == last && !mid.order.contains_key(k) by {
            if names_first(steps, k, n) && mid.order.contains_key(k) {
                let i = choose|i: int| names_first(rest, k, i);
                assert(names_first(steps, k, i));
                assert(change_key(steps[i]) == Some(k));
            }
            if k == last && !mid.order.contains_key(k) {
                assert forall|j: int| 0 <= j < n implies change_key(#[trigger] steps[j]) != Some(k) by {
                    if change_key(steps[j]) == Some(k) {
                        first_naming(rest, k, j);
                    }
                }
            }
        }
        assert forall|k: K| #[trigger] after.order.contains_key(k) <==> exists|i: int|
            names_first(steps, k, i) by {
            if mid.order.contains_key(k) {
                let i = choose|i: int| names_first(rest, k, i);
                assert(names_first(steps, k, i));
            }
            if after.order.contains_key(k) && !mid.order.contains_key(k) {
                assert(names_first(steps, k, n));
            }
            if exists|i: int| names_first(steps, k, i) {
                let i = choose|i: int| names_first(steps, k, i);
                if i < n {
                    assert(names_first(rest, k, i));
                } else {
                    assert(i == n);
                }
            }
        }
        assert forall|a: K, i: int, b: K, j: int|
            i < j && #[trigger] names_first(steps, a, i) && #[trigger] names_first(steps, b, j) implies after.order[a]
            < after.order[b] by {
            assert(names_first(rest, a, i));
            assert(mid.order.contains_key(a));
            if j < n {
                assert(names_first(rest, b, j));
                assert(mid.order.contains_key(b));
            }
        }
    }
}

proof fn first_naming<K, V>(steps: Seq<Change<K, V>>, k: K, j: int) -> (i: int)
    requires
        0 <= j < steps.len(),
        change_key(steps[j]) == Some(k),
    ensures
        names_first(steps, k, i),
    decreases j,
{
    if exists|n: int| 0 <= n < j && change_key(#[trigger] steps[n]) == Some(k) {
        let n = choose|n: int| 0 <= n < j && change_key(#[trigger] steps[n]) == Some(k);
        first_naming(steps, k, n)
    } else {
        j
    }
}

} // verus!
