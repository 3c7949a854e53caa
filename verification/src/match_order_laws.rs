//! The order in which the rows of a source that have a join key stand.
use vstd::prelude::*;

use crate::diff::{fits, fits_all, Change};
use crate::fx::lookup;
use crate::index::{empty_side, rows_of, side_of, side_of_source, without, without_contains, Side};
use crate::ordered_set::push_new;

verus! {

/// A sequence without one of its elements is what it was, with the place of the element taken out.
pub proof fn without_one<K>(s: Seq<K>, i: int)
    requires
        s.no_duplicates(),
        0 <= i < s.len(),
    ensures
        without(s, s[i]) == s.remove(i),
    decreases s.len(),
{
    let rest = s.drop_last();
    if i == s.len() - 1 {
        without_contains(rest, s[i]);
        assert(!rest.contains(s[i])) by {
            if rest.contains(s[i]) {
                let n = choose|n: int| 0 <= n < rest.len() && rest[n] == s[i];
                assert(s[n] == s[i]);
            }
        }
        assert(s.remove(i) =~= rest);
    } else {
        assert(rest[i] == s[i]);
        without_one(rest, i);
        assert(s.last() != s[i]);
        assert(s.remove(i) =~= rest.remove(i).push(s.last()));
    }
}

/// An element that is new to a sequence goes to its end, and one that is in it already changes nothing.
pub proof fn new_at_the_end<T>(s: Seq<T>, x: T)
    ensures
        s.contains(x) ==> push_new(s, x) == s,
        !s.contains(x) ==> push_new(s, x) == s.push(x),
{
}

/// The rows of a join key once a row has been set: a row that has the join key and keeps it stays in its
/// place with its new value; one that leaves it goes from its place; one that comes to it goes to the
/// end; and the others stay as they are.
pub proof fn row_set_in_place<K, V, J>(side: Side<K, V, J>, k: K, v: V, join: Option<J>, j: J) -> (i:
    int)
    requires
        side.wf(),
    ensures
        lookup(side.keys, k) == Some(j) ==> 0 <= i < side.matches_of(j).len() && side.matches_of(j)[i].0
            == k,
        lookup(side.keys, k) == Some(j) && join == Some(j) ==> side.set(k, v, join).matches_of(j)
            == side.matches_of(j).update(i, (k, v)),
        lookup(side.keys, k) == Some(j) && join != Some(j) ==> side.set(k, v, join).matches_of(j)
            == side.matches_of(j).remove(i),
        lookup(side.keys, k) != Some(j) && join == Some(j) ==> side.set(k, v, join).matches_of(j)
            == side.matches_of(j).push((k, v)),
        lookup(side.keys, k) != Some(j) && join != Some(j) ==> side.set(k, v, join).matches_of(j)
            == side.matches_of(j),
{
    let had = lookup(side.keys, k);
    let after = side.set(k, v, join);
    let members = side.members_of(j);
    let jk = |x: K, y: V| join;
    side.set_effect(k, v, join, jk);
    side.matches_lookup(j, k);
    assert(side.member(j, k) == (side.keys.contains_key(k) && side.keys[k] == j));
    if had == Some(j) {
        assert(members.contains(k));
        let i = choose|i: int| 0 <= i < members.len() && members[i] == k;
        assert forall|n: int| 0 <= n < members.len() && n != i implies members[n] != k by {}
        if join == Some(j) {
            assert(after.matches_of(j) =~= side.matches_of(j).update(i, (k, v)));
        } else {
            without_one(members, i);
            assert(after.members_of(j) =~= members.remove(i));
            assert(after.matches_of(j) =~= side.matches_of(j).remove(i));
        }
        i
    } else {
        if join == Some(j) {
            assert(!members.contains(k));
            assert(after.members_of(j) =~= members.push(k));
            assert(after.matches_of(j) =~= side.matches_of(j).push((k, v)));
        } else {
            assert(!side.joins_of_set(k, join).contains(j));
        }
        0
    }
}

proof fn loaded_in_order<K, V, J>(entries: Seq<(K, V)>, jk: spec_fn(K, V) -> Option<J>, j: J)
    requires
        entries.map_values(|e: (K, V)| e.0).no_duplicates(),
    ensures
        empty_side::<K, V, J>().load(entries, jk).wf(),
        forall|k: K| #[trigger]
            empty_side::<K, V, J>().load(entries, jk).keys.contains_key(k) ==> entries.map_values(
                |e: (K, V)| e.0,
            ).contains(k),
        empty_side::<K, V, J>().load(entries, jk).matches_of(j) == entries.filter(
            |e: (K, V)| jk(e.0, e.1) == Some(j),
        ),
    decreases entries.len(),
{
    reveal(Seq::filter);
    let none = empty_side::<K, V, J>();
    side_of_source(Seq::<Change<K, V>>::empty(), jk);
    assert(side_of(Seq::<Change<K, V>>::empty(), jk) == none);
    if entries.len() == 0 {
        assert(none.matches_of(j) =~= Seq::empty());
        assert(entries.filter(|e: (K, V)| jk(e.0, e.1) == Some(j)) =~= Seq::empty());
    } else {
        let rest = entries.drop_last();
        let (k, v) = entries.last();
        let names = entries.map_values(|e: (K, V)| e.0);
        let some = rest.map_values(|e: (K, V)| e.0);
        assert(some =~= names.drop_last());
        loaded_in_order(rest, jk, j);
        let side = none.load(rest, jk);
        assert(names[entries.len() - 1] == k);
        assert(!side.keys.contains_key(k)) by {
            if some.contains(k) {
                let i = choose|i: int| 0 <= i < some.len() && some[i] == k;
                assert(names[i] == k);
            }
        }
        side.set_effect(k, v, jk(k, v), jk);
        let _ = row_set_in_place(side, k, v, jk(k, v), j);
        let after = none.load(entries, jk);
        assert(after == side.set(k, v, jk(k, v)));
        assert forall|x: K| #[trigger] after.keys.contains_key(x) implies names.contains(x) by {
            if x != k {
                assert(side.keys.contains_key(x));
                let i = choose|i: int| 0 <= i < some.len() && some[i] == x;
                assert(names[i] == x);
            } else {
                assert(names[entries.len() - 1] == x);
            }
        }
    }
}

/// The rows of a source that have a join key stand in the order in which they got it: a row that comes
/// goes to the end, a row that goes leaves the others as they were, a row whose value changes keeps its
/// place while it keeps the join key, and a new beginning puts them in the order of its entries.
pub proof fn rows_in_order_of_their_join_key<K, V, J>(
    told: Seq<Change<K, V>>,
    change: Change<K, V>,
    jk: spec_fn(K, V) -> Option<J>,
    j: J,
) -> (i: int)
    requires
        fits_all(Map::empty(), told),
        fits(rows_of(told), change),
    ensures
        match change {
            Change::Initial { entries } => side_of(told.push(change), jk).matches_of(j)
                == entries.filter(|e: (K, V)| jk(e.0, e.1) == Some(j)),
            Change::Insert { key, value } => side_of(told.push(change), jk).matches_of(j) == (if jk(
                key,
                value,
            ) == Some(j) {
                side_of(told, jk).matches_of(j).push((key, value))
            } else {
                side_of(told, jk).matches_of(j)
            }),
            Change::Remove { key, old_value } => if jk(key, old_value) == Some(j) {
                &&& 0 <= i < side_of(told, jk).matches_of(j).len()
                &&& side_of(told, jk).matches_of(j)[i] == (key, old_value)
                &&& side_of(told.push(change), jk).matches_of(j) == side_of(told, jk).matches_of(
                    j,
                ).remove(i)
            } else {
                side_of(told.push(change), jk).matches_of(j) == side_of(told, jk).matches_of(j)
            },
            Change::Update { key, old_value, new_value } => {
                let had = jk(key, old_value) == Some(j);
                let has = jk(key, new_value) == Some(j);
                &&& had ==> 0 <= i < side_of(told, jk).matches_of(j).len() && side_of(
                    told,
                    jk,
                ).matches_of(j)[i] == (key, old_value)
                &&& side_of(told.push(change), jk).matches_of(j) == (if had && has {
                    side_of(told, jk).matches_of(j).update(i, (key, new_value))
                } else if had {
                    side_of(told, jk).matches_of(j).remove(i)
                } else if has {
                    side_of(told, jk).matches_of(j).push((key, new_value))
                } else {
                    side_of(told, jk).matches_of(j)
                })
            },
        },
{
    let side = side_of(told, jk);
    let m = rows_of(told);
    side_of_source(told, jk);
    assert(told.push(change).drop_last() =~= told);
    assert(side_of(told.push(change), jk) == side.step(change, jk));
    match change {
        Change::Initial { entries } => {
            loaded_in_order(entries, jk, j);
            0
        },
        Change::Insert { key, value } => {
            assert(lookup(side.rows, key) is None);
            assert(side.rows.contains_key(key) == side.keys.contains_key(key));
            row_set_in_place(side, key, value, jk(key, value), j)
        },
        Change::Remove { key, old_value } => {
            let _ = lookup(side.rows, key);
            assert(side.rows.contains_key(key) == side.keys.contains_key(key));
            assert(lookup(m, key) == Some(old_value));
            row_set_in_place(side, key, old_value, None, j)
        },
        Change::Update { key, old_value, new_value } => {
            let _ = lookup(side.rows, key);
            assert(side.rows.contains_key(key) == side.keys.contains_key(key));
            assert(lookup(m, key) == Some(old_value));
            row_set_in_place(side, key, new_value, jk(key, new_value), j)
        },
    }
}

} // verus!
