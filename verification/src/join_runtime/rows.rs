//! A join that gives any number of rows for each left row, under keys of its own.
use vstd::prelude::*;

use crate::delta::{
    commit_change, commit_keyed_value, delta, delta_replays, put_all, put_all_lookup,
};
use crate::diff::{entries_map, fits_all, flat, replay, replay_concat, steps_of, Change, MapDiff};
use crate::foreign_key::{right_key, RightJoinKey};
use crate::func::{call_rows, image_rows, pure2, pure_rows, RowFn, RowsFn};
use crate::fx::{lookup, FxMap};
use crate::index::{empty_side, entry_keys, total_key, KeyedIndex, Side};
use crate::join_runtime::state::RelationIndex;
use crate::ordered_set::{extend_new, extend_new_contains, kept, kept_contains, OrderedSet};
use crate::value::{models, CellValue, MapKey};

verus! {

/// The output keys that each left row has given, in order, and the output that they hold.
#[verifier::reject_recursive_types(LK)]
#[verifier::reject_recursive_types(OK)]
pub struct OwnedRows<LK, OK, OV> {
    pub owned: Map<LK, Seq<OK>>,
    pub cache: Map<OK, OV>,
}

/// The keys of entries, each once, in the order in which they come first.
pub open spec fn distinct_keys<K, V>(entries: Seq<(K, V)>) -> Seq<K> {
    extend_new(Seq::empty(), entry_keys(entries))
}

/// The keys that an entry has.
pub open spec fn present_keys<K, V>(entries: Seq<(K, V)>) -> Set<K> {
    Set::new(|k: K| entry_keys(entries).contains(k))
}

/// The keys that no entry has.
pub open spec fn absent_keys<K, V>(entries: Seq<(K, V)>) -> Set<K> {
    Set::new(|k: K| !entry_keys(entries).contains(k))
}

/// The keys among `current` that no entry has.
pub open spec fn stale_keys<K, V>(current: Seq<K>, entries: Seq<(K, V)>) -> Seq<K> {
    kept(current, absent_keys(entries))
}

/// The keys among `current` that an entry has.
pub open spec fn live_keys<K, V>(current: Seq<K>, entries: Seq<(K, V)>) -> Seq<K> {
    kept(current, present_keys(entries))
}

/// The keys of a map made of entries are the keys of the entries.
pub proof fn entries_map_keys<K, V>(entries: Seq<(K, V)>)
    ensures
        forall|k: K| #[trigger] entries_map(entries).contains_key(k) <==> entry_keys(entries).contains(k),
    decreases entries.len(),
{
    if entries.len() > 0 {
        let rest = entries.drop_last();
        entries_map_keys(rest);
        assert forall|k: K| #[trigger] entries_map(entries).contains_key(k) <==> entry_keys(
            entries,
        ).contains(k) by {
            assert(entry_keys(entries)[entries.len() - 1] == entries.last().0);
            assert(entry_keys(rest) =~= entry_keys(entries).drop_last());
            if entry_keys(rest).contains(k) {
                let i = choose|i: int| 0 <= i < rest.len() && entry_keys(rest)[i] == k;
                assert(entry_keys(entries)[i] == k);
            }
            if entry_keys(entries).contains(k) {
                let i = choose|i: int| 0 <= i < entries.len() && entry_keys(entries)[i] == k;
                if i < rest.len() {
                    assert(entry_keys(rest)[i] == k);
                }
            }
            assert(entries_map(rest).contains_key(k) <==> entry_keys(rest).contains(k));
        }
    } else {
        assert forall|k: K| #[trigger] entries_map(entries).contains_key(k) <==> entry_keys(
            entries,
        ).contains(k) by {}
    }
}

impl<LK, OK, OV> OwnedRows<LK, OK, OV> {
    /// The output keys that a left row has given.
    pub open spec fn keys_of(self, k: LK) -> Seq<OK> {
        if self.owned.contains_key(k) {
            self.owned[k]
        } else {
            Seq::empty()
        }
    }

    /// The output keys looked at when a left row is to give these rows: first those that it no
    /// longer gives, then those that it gives.
    pub open spec fn touched(self, k: LK, rows: Seq<(OK, OV)>) -> Seq<OK> {
        stale_keys(self.keys_of(k), rows) + distinct_keys(rows)
    }

    /// What is kept once a left row gives these rows.
    pub open spec fn give(self, k: LK, rows: Seq<(OK, OV)>) -> OwnedRows<LK, OK, OV> {
        let keys = extend_new(live_keys(self.keys_of(k), rows), distinct_keys(rows));
        OwnedRows {
            owned: if keys.len() == 0 {
                self.owned.remove(k)
            } else {
                self.owned.insert(k, keys)
            },
            cache: put_all(self.cache, self.touched(k, rows), entries_map(rows)),
        }
    }

    /// The changes of the output when a left row gives these rows.
    pub open spec fn told(self, k: LK, rows: Seq<(OK, OV)>) -> Seq<Change<OK, OV>> {
        delta(self.cache, self.touched(k, rows), entries_map(rows))
    }

    /// What is kept once several left rows in turn give their rows.
    pub open spec fn give_all(self, keys: Seq<LK>, rows: spec_fn(LK) -> Seq<(OK, OV)>) -> OwnedRows<
        LK,
        OK,
        OV,
    >
        decreases keys.len(),
    {
        if keys.len() == 0 {
            self
        } else {
            self.give_all(keys.drop_last(), rows).give(keys.last(), rows(keys.last()))
        }
    }

    /// The changes of the output when several left rows in turn give their rows.
    pub open spec fn told_all(self, keys: Seq<LK>, rows: spec_fn(LK) -> Seq<(OK, OV)>) -> Seq<
        Change<OK, OV>,
    >
        decreases keys.len(),
    {
        if keys.len() == 0 {
            Seq::empty()
        } else {
            self.told_all(keys.drop_last(), rows) + self.give_all(keys.drop_last(), rows).told(
                keys.last(),
                rows(keys.last()),
            )
        }
    }

    /// The output is what the left rows give, where each output key belongs to one left row.
    pub open spec fn holds(
        self,
        rows: spec_fn(LK) -> Seq<(OK, OV)>,
        owner: spec_fn(OK) -> LK,
    ) -> bool {
        &&& forall|k: LK|
            #![trigger self.keys_of(k)]
            self.keys_of(k).no_duplicates() && (forall|o: OK|
                self.keys_of(k).contains(o) <==> entry_keys(rows(k)).contains(o))
        &&& forall|o: OK| #[trigger]
            lookup(self.cache, o) == lookup(entries_map(rows(owner(o))), o)
    }

    pub proof fn told_all_replays(self, keys: Seq<LK>, rows: spec_fn(LK) -> Seq<(OK, OV)>)
        ensures
            fits_all(self.cache, self.told_all(keys, rows)),
            replay(self.cache, self.told_all(keys, rows)) == self.give_all(keys, rows).cache,
        decreases keys.len(),
    {
        if keys.len() > 0 {
            let rest = keys.drop_last();
            self.told_all_replays(rest, rows);
            let mid = self.give_all(rest, rows);
            let last = rows(keys.last());
            delta_replays(mid.cache, mid.touched(keys.last(), last), entries_map(last));
            replay_concat(self.cache, self.told_all(rest, rows), mid.told(keys.last(), last));
        }
    }

    pub proof fn give_holds(
        self,
        k: LK,
        before: spec_fn(LK) -> Seq<(OK, OV)>,
        after: spec_fn(LK) -> Seq<(OK, OV)>,
        owner: spec_fn(OK) -> LK,
    )
        requires
            self.holds(before, owner),
            forall|x: LK| x != k ==> #[trigger] after(x) == before(x),
            forall|x: LK, o: OK| #[trigger] entry_keys(before(x)).contains(o) ==> owner(o) == x,
            forall|x: LK, o: OK| #[trigger] entry_keys(after(x)).contains(o) ==> owner(o) == x,
        ensures
            self.give(k, after(k)).holds(after, owner),
    {
        let rows = after(k);
        let current = self.keys_of(k);
        let next = self.give(k, rows);
        let stale = stale_keys(current, rows);
        let live = live_keys(current, rows);
        let fresh = distinct_keys(rows);
        kept_contains(current, absent_keys(rows));
        kept_contains(current, present_keys(rows));
        extend_new_contains(Seq::<OK>::empty(), entry_keys(rows));
        extend_new_contains(live, fresh);
        entries_map_keys(rows);
        entries_map_keys(before(k));
        let keys = extend_new(live, fresh);
        assert(next.keys_of(k) =~= keys);
        assert forall|x: LK|
            #![trigger next.keys_of(x)]
            next.keys_of(x).no_duplicates() && (forall|o: OK|
                next.keys_of(x).contains(o) <==> entry_keys(after(x)).contains(o)) by {
            if x != k {
                assert(next.keys_of(x) == self.keys_of(x));
                assert(after(x) == before(x));
            } else {
                assert forall|o: OK| next.keys_of(x).contains(o) <==> entry_keys(after(x)).contains(
                    o,
                ) by {
                    assert(keys.contains(o) <==> live.contains(o) || fresh.contains(o));
                    assert(!Seq::<OK>::empty().contains(o));
                    assert(fresh.contains(o) <==> entry_keys(rows).contains(o));
                    assert(live.contains(o) ==> present_keys(rows).contains(o));
                    assert(present_keys(rows).contains(o) <==> entry_keys(rows).contains(o));
                    assert(after(x) == rows);
                    assert(next.keys_of(x) == keys);
                }
            }
        }
        put_all_lookup(self.cache, self.touched(k, rows), entries_map(rows));
        assert forall|o: OK| #[trigger] lookup(next.cache, o) == lookup(
            entries_map(after(owner(o))),
            o,
        ) by {
            let touched = self.touched(k, rows);
            assert(touched.contains(o) <==> stale.contains(o) || fresh.contains(o)) by {
                if stale.contains(o) {
                    let i = choose|i: int| 0 <= i < stale.len() && stale[i] == o;
                    assert(touched[i] == o);
                }
                if fresh.contains(o) {
                    let i = choose|i: int| 0 <= i < fresh.len() && fresh[i] == o;
                    assert(touched[stale.len() + i] == o);
                }
                if touched.contains(o) {
                    let i = choose|i: int| 0 <= i < touched.len() && touched[i] == o;
                    if i < stale.len() {
                        assert(stale[i] == o);
                    } else {
                        assert(fresh[i - stale.len()] == o);
                    }
                }
            }
            assert(lookup(self.cache, o) == lookup(entries_map(before(owner(o))), o));
            assert(current.contains(o) <==> entry_keys(before(k)).contains(o));
            if touched.contains(o) {
                if fresh.contains(o) {
                    assert(owner(o) == k);
                } else {
                    assert(owner(o) == k);
                }
            } else {
                if owner(o) == k {
                    assert(!current.contains(o));
                    assert(!entries_map(before(k)).contains_key(o));
                } else {
                    assert(after(owner(o)) == before(owner(o)));
                }
            }
        }
    }

    /// Where the touched left rows name every one that gives other rows than before, the output is
    /// what the left rows give now.
    pub proof fn give_all_holds(
        self,
        keys: Seq<LK>,
        before: spec_fn(LK) -> Seq<(OK, OV)>,
        after: spec_fn(LK) -> Seq<(OK, OV)>,
        owner: spec_fn(OK) -> LK,
    )
        requires
            self.holds(before, owner),
            forall|x: LK, o: OK| #[trigger] entry_keys(before(x)).contains(o) ==> owner(o) == x,
            forall|x: LK, o: OK| #[trigger] entry_keys(after(x)).contains(o) ==> owner(o) == x,
            forall|x: LK| !keys.contains(x) ==> #[trigger] after(x) == before(x),
        ensures
            self.give_all(keys, after).holds(after, owner),
        decreases keys.len(),
    {
        if keys.len() == 0 {
            assert forall|x: LK| #[trigger] after(x) == before(x) by {
                assert(!keys.contains(x));
            }
            assert forall|k: LK|
                #![trigger self.keys_of(k)]
                self.keys_of(k).no_duplicates() && (forall|o: OK|
                    self.keys_of(k).contains(o) <==> entry_keys(after(k)).contains(o)) by {
                assert(after(k) == before(k));
            }
            assert forall|o: OK| #[trigger] lookup(self.cache, o) == lookup(
                entries_map(after(owner(o))),
                o,
            ) by {
                assert(after(owner(o)) == before(owner(o)));
            }
        } else {
            let rest = keys.drop_last();
            let k = keys.last();
            let mid = |x: LK| if rest.contains(x) || x != k { after(x) } else { before(x) };
            assert forall|x: LK| !rest.contains(x) implies #[trigger] mid(x) == before(x) by {
                if x != k {
                    assert(!keys.contains(x)) by {
                        if keys.contains(x) {
                            let i = choose|i: int| 0 <= i < keys.len() && keys[i] == x;
                            assert(rest[i] == x);
                        }
                    }
                    assert(after(x) == before(x));
                }
            }
            assert forall|x: LK, o: OK| #[trigger] entry_keys(mid(x)).contains(o) implies owner(o)
                == x by {
                assert(entry_keys(after(x)).contains(o) || entry_keys(before(x)).contains(o));
            }
            self.give_all_holds(rest, before, mid, owner);
            self.give_all_ext(rest, mid, after);
            self.give_all(rest, after).give_holds(k, mid, after, owner);
        }
    }

    /// Giving depends only on the rows of the left rows that give.
    pub proof fn give_all_ext(
        self,
        keys: Seq<LK>,
        a: spec_fn(LK) -> Seq<(OK, OV)>,
        b: spec_fn(LK) -> Seq<(OK, OV)>,
    )
        requires
            forall|k: LK| #[trigger] keys.contains(k) ==> a(k) == b(k),
        ensures
            self.give_all(keys, a) == self.give_all(keys, b),
        decreases keys.len(),
    {
        if keys.len() > 0 {
            let rest = keys.drop_last();
            assert forall|k: LK| #[trigger] rest.contains(k) implies a(k) == b(k) by {
                let i = choose|i: int| 0 <= i < rest.len() && rest[i] == k;
                assert(keys[i] == k);
                assert(keys.contains(k));
            }
            assert(keys.contains(keys.last())) by {
                assert(keys[keys.len() - 1] == keys.last());
            }
            self.give_all_ext(rest, a, b);
        }
    }
}

/// A left row gives a row under an output key.
pub open spec fn gives<LK, OK, OV>(rows: spec_fn(LK) -> Seq<(OK, OV)>, k: LK, o: OK) -> bool {
    entry_keys(rows(k)).contains(o)
}

/// No two left rows give a row under the same output key.
pub open spec fn one_giver<LK, OK, OV>(rows: spec_fn(LK) -> Seq<(OK, OV)>) -> bool {
    forall|x: LK, y: LK, o: OK| #[trigger]
        gives(rows, x, o) && #[trigger] gives(rows, y, o) ==> x == y
}

/// The rows that left rows give once some of them have come to their new ones.
pub open spec fn midway<LK, OK, OV>(
    before: spec_fn(LK) -> Seq<(OK, OV)>,
    after: spec_fn(LK) -> Seq<(OK, OV)>,
    done: Seq<LK>,
) -> spec_fn(LK) -> Seq<(OK, OV)> {
    |k: LK|
        if done.contains(k) {
            after(k)
        } else {
            before(k)
        }
}

/// As left rows in turn come to their new rows, no two of them ever give the same output key.
pub open spec fn one_giver_throughout<LK, OK, OV>(
    before: spec_fn(LK) -> Seq<(OK, OV)>,
    after: spec_fn(LK) -> Seq<(OK, OV)>,
    keys: Seq<LK>,
) -> bool {
    forall|i: int|
        0 <= i <= keys.len() ==> one_giver(midway(before, after, #[trigger] keys.take(i)))
}

/// Where no two left rows give the same output key before or after an event, and none goes from one
/// left row to another in it, no two give the same on the way.
pub proof fn settled_givers<LK, OK, OV>(
    before: spec_fn(LK) -> Seq<(OK, OV)>,
    after: spec_fn(LK) -> Seq<(OK, OV)>,
    keys: Seq<LK>,
)
    requires
        one_giver(before),
        one_giver(after),
        forall|x: LK, y: LK, o: OK| #[trigger]
            gives(before, x, o) && #[trigger] gives(after, y, o) ==> x == y,
    ensures
        one_giver_throughout(before, after, keys),
{
    assert forall|i: int| 0 <= i <= keys.len() implies one_giver(
        midway(before, after, #[trigger] keys.take(i)),
    ) by {
        let done = keys.take(i);
        let mid = midway(before, after, done);
        assert forall|x: LK, y: LK, o: OK| #[trigger] gives(mid, x, o) && #[trigger] gives(mid, y, o) implies x
            == y by {
            assert(done.contains(x) ==> gives(after, x, o));
            assert(!done.contains(x) ==> gives(before, x, o));
            assert(done.contains(y) ==> gives(after, y, o));
            assert(!done.contains(y) ==> gives(before, y, o));
        }
    }
}

impl<LK, OK, OV> OwnedRows<LK, OK, OV> {
    /// The output is the union of what the left rows give.
    pub open spec fn holds_union(self, rows: spec_fn(LK) -> Seq<(OK, OV)>) -> bool {
        &&& forall|k: LK|
            #![trigger self.keys_of(k)]
            self.keys_of(k).no_duplicates() && (forall|o: OK|
                self.keys_of(k).contains(o) <==> gives(rows, k, o))
        &&& forall|k: LK, o: OK| #[trigger]
            gives(rows, k, o) ==> lookup(self.cache, o) == lookup(entries_map(rows(k)), o)
        &&& forall|o: OK| #[trigger]
            self.cache.contains_key(o) ==> exists|k: LK| #[trigger] gives(rows, k, o)
    }

    proof fn give_holds_union(
        self,
        k: LK,
        before: spec_fn(LK) -> Seq<(OK, OV)>,
        after: spec_fn(LK) -> Seq<(OK, OV)>,
    )
        requires
            self.holds_union(before),
            one_giver(before),
            one_giver(after),
            forall|x: LK| x != k ==> #[trigger] after(x) == before(x),
        ensures
            self.give(k, after(k)).holds_union(after),
    {
        let owner = |o: OK|
            if exists|x: LK| #[trigger] gives(after, x, o) {
                choose|x: LK| #[trigger] gives(after, x, o)
            } else {
                choose|x: LK| #[trigger] gives(before, x, o)
            };
        assert forall|x: LK, o: OK| #[trigger] entry_keys(after(x)).contains(o) implies owner(o) == x by {
            assert(gives(after, x, o));
        }
        assert forall|x: LK, o: OK| #[trigger] entry_keys(before(x)).contains(o) implies owner(o) == x by {
            assert(gives(before, x, o));
            if exists|y: LK| #[trigger] gives(after, y, o) {
                let y = choose|y: LK| #[trigger] gives(after, y, o);
                if y != k {
                    assert(gives(before, y, o));
                } else if x != k {
                    assert(gives(after, x, o));
                }
            }
        }
        assert forall|x: LK|
            #![trigger self.keys_of(x)]
            self.keys_of(x).no_duplicates() && (forall|o: OK|
                self.keys_of(x).contains(o) <==> entry_keys(before(x)).contains(o)) by {
            assert forall|o: OK| self.keys_of(x).contains(o) <==> entry_keys(before(x)).contains(o) by {
                assert(self.keys_of(x).contains(o) <==> gives(before, x, o));
            }
        }
        assert forall|o: OK| #[trigger] lookup(self.cache, o) == lookup(
            entries_map(before(owner(o))),
            o,
        ) by {
            entries_map_keys(before(owner(o)));
            if gives(before, owner(o), o) {
            } else if self.cache.contains_key(o) {
                let x = choose|x: LK| #[trigger] gives(before, x, o);
                assert(entry_keys(before(x)).contains(o));
            }
        }
        self.give_holds(k, before, after, owner);
        let next = self.give(k, after(k));
        assert forall|x: LK|
            #![trigger next.keys_of(x)]
            next.keys_of(x).no_duplicates() && (forall|o: OK|
                next.keys_of(x).contains(o) <==> gives(after, x, o)) by {
            assert forall|o: OK| next.keys_of(x).contains(o) <==> gives(after, x, o) by {
                assert(next.keys_of(x).contains(o) <==> entry_keys(after(x)).contains(o));
            }
        }
        assert forall|x: LK, o: OK| #[trigger] gives(after, x, o) implies lookup(next.cache, o)
            == lookup(entries_map(after(x)), o) by {
            assert(entry_keys(after(x)).contains(o));
        }
        assert forall|o: OK| #[trigger] next.cache.contains_key(o) implies exists|x: LK| #[trigger]
            gives(after, x, o) by {
            entries_map_keys(after(owner(o)));
            assert(lookup(next.cache, o) is Some);
            assert(gives(after, owner(o), o));
        }
    }

    /// A join gives the union of what its left rows give, where as they come to their new rows no two
    /// of them ever give the same output key, and every one that gives other rows than before is
    /// touched.
    pub proof fn give_all_holds_union(
        self,
        keys: Seq<LK>,
        before: spec_fn(LK) -> Seq<(OK, OV)>,
        after: spec_fn(LK) -> Seq<(OK, OV)>,
    )
        requires
            self.holds_union(before),
            one_giver_throughout(before, after, keys),
            forall|x: LK| !keys.contains(x) ==> #[trigger] after(x) == before(x),
        ensures
            self.give_all(keys, after).holds_union(after),
        decreases keys.len(),
    {
        let _ = keys.take(keys.len() as int);
        assert(keys.take(keys.len() as int) =~= keys);
        assert(midway(before, after, keys) =~= after) by {
            assert forall|x: LK| #[trigger] midway(before, after, keys)(x) == after(x) by {}
        }
        if keys.len() == 0 {
            assert(after =~= before) by {
                assert forall|x: LK| #[trigger] after(x) == before(x) by {
                    assert(!keys.contains(x));
                }
            }
        } else {
            let rest = keys.drop_last();
            let k = keys.last();
            let mid = midway(before, after, rest);
            assert(keys.take(rest.len() as int) =~= rest);
            assert(one_giver(midway(before, after, keys.take(rest.len() as int))));
            assert forall|i: int| 0 <= i <= rest.len() implies one_giver(
                midway(before, mid, #[trigger] rest.take(i)),
            ) by {
                assert(rest.take(i) =~= keys.take(i));
                assert(midway(before, mid, rest.take(i)) =~= midway(before, after, keys.take(i))) by {
                    assert forall|x: LK| #[trigger]
                        midway(before, mid, rest.take(i))(x) == midway(before, after, keys.take(i))(x) by {
                        if rest.take(i).contains(x) {
                            let n = choose|n: int| 0 <= n < i && rest.take(i)[n] == x;
                            assert(rest[n] == x);
                        }
                    }
                }
            }
            self.give_all_holds_union(rest, before, mid);
            self.give_all_ext(rest, mid, after);
            assert forall|x: LK| x != k implies #[trigger] after(x) == mid(x) by {
                if !rest.contains(x) && keys.contains(x) {
                    let i = choose|i: int| 0 <= i < keys.len() && keys[i] == x;
                    assert(rest[i] == x);
                }
            }
            assert(one_giver(after));
            self.give_all(rest, after).give_holds_union(k, mid, after);
        }
    }
}

/// The rows that a left key gives: what the left row and the right rows that match it are computed
/// to, or none without a left row.
pub open spec fn given_rows<LK, LV, RK, RV, JK, OK, OV>(
    left: Side<LK, LV, JK>,
    right: Side<RK, RV, JK>,
    compute: spec_fn(LK, LV, Seq<(RK, RV)>) -> Seq<(OK, OV)>,
) -> spec_fn(LK) -> Seq<(OK, OV)> {
    |k: LK|
        if left.rows.contains_key(k) {
            compute(k, left.rows[k], right.matches_of(left.keys[k]))
        } else {
            Seq::empty()
        }
}

/// What a closure computes for a left row and the right rows that match it.
pub open spec fn computation<
    LK: CellValue,
    LV: CellValue,
    RK: CellValue,
    RV: CellValue,
    OK: CellValue,
    OV: CellValue,
    FO: RowsFn<LK, LV, RK, RV, Vec<(OK, OV)>>,
>(f: FO) -> spec_fn(LK::Model, LV::Model, Seq<(RK::Model, RV::Model)>) -> Seq<
    (OK::Model, OV::Model),
> {
    |k: LK::Model, v: LV::Model, r: Seq<(RK::Model, RV::Model)>|
        image_rows::<LK, LV, RK, RV, Vec<(OK, OV)>, FO>(f, k, v, r)
}

/// The left half of a join that gives any number of rows for each left row.
#[verifier::reject_recursive_types(LK)]
#[verifier::reject_recursive_types(LV)]
#[verifier::reject_recursive_types(JK)]
#[verifier::reject_recursive_types(OK)]
#[verifier::reject_recursive_types(OV)]
pub struct JoinState<LK: MapKey, LV: CellValue, JK: MapKey, OK: MapKey, OV: CellValue> {
    left: KeyedIndex<LK, LV, JK>,
    left_output_keys: FxMap<LK, Vec<OK>>,
    output_cache: FxMap<OK, OV>,
}

impl<
    LK: MapKey,
    LV: CellValue,
    JK: MapKey,
    OK: MapKey,
    OV: CellValue,
> JoinState<LK, LV, JK, OK, OV> {
    /// The left rows.
    pub closed spec fn left(&self) -> Side<LK::Model, LV::Model, JK::Model> {
        self.left@
    }

    /// The output, and the left rows that have given it.
    pub closed spec fn output(&self) -> OwnedRows<LK::Model, OK::Model, OV::Model> {
        OwnedRows { owned: self.left_output_keys@, cache: self.output_cache@ }
    }

    /// Each left row has given each output key once.
    pub open spec fn wf(&self) -> bool {
        &&& self.left().wf()
        &&& forall|k: LK::Model| (#[trigger] self.output().keys_of(k)).no_duplicates()
    }

    pub fn new() -> (state: JoinState<LK, LV, JK, OK, OV>)
        ensures
            state.wf(),
            state.left() == empty_side::<LK::Model, LV::Model, JK::Model>(),
            state.output().owned == Map::<LK::Model, Seq<OK::Model>>::empty(),
            state.output().cache == Map::<OK::Model, OV::Model>::empty(),
    {
        JoinState {
            left: KeyedIndex::new(),
            left_output_keys: FxMap::new(),
            output_cache: FxMap::new(),
        }
    }

    /// The kept output at a key.
    pub fn get(&self, key: &OK) -> (value: Option<&OV>)
        ensures
            value is Some == self.output().cache.contains_key(key.model()),
            value is Some ==> value->Some_0.model() == self.output().cache[key.model()],
    {
        self.output_cache.get(key)
    }

    fn rows_for<RK: MapKey, RV: CellValue, FO: RowsFn<LK, LV, RK, RV, Vec<(OK, OV)>>>(
        &self,
        right: &RelationIndex<RK, RV, JK>,
        key: &LK,
        compute_rows: &FO,
    ) -> (rows: Vec<(OK, OV)>)
        requires
            self.left().wf(),
            right.wf(),
            pure_rows::<LK, LV, RK, RV, Vec<(OK, OV)>, FO>(*compute_rows),
        ensures
            models(rows@) == given_rows(
                self.left(),
                right@,
                computation::<LK, LV, RK, RV, OK, OV, FO>(*compute_rows),
            )(key.model()),
    {
        match self.left.row(key) {
            Some(row) => {
                let empty: Vec<(RK, RV)> = Vec::new();
                let rows: &[(RK, RV)] = match self.left.join_key(key) {
                    Some(join_key) => match right.rows_of(join_key) {
                        Some(rows) => rows.as_slice(),
                        None => {
                            assert(models(empty@) =~= right@.matches_of(join_key.model()));
                            empty.as_slice()
                        },
                    },
                    None => empty.as_slice(),
                };
                call_rows(compute_rows, key, row, rows)
            },
            None => {
                let rows: Vec<(OK, OV)> = Vec::new();
                assert(models(rows@) =~= Seq::empty());
                rows
            },
        }
    }

    /// Lets one left row give these rows, and tells the changes of the output.
    fn give_rows(&mut self, key: &LK, rows: Vec<(OK, OV)>, changes: &mut Vec<MapDiff<OK, OV>>)
        requires
            old(self).wf(),
            flat(old(changes)@),
        ensures
            final(self).wf(),
            final(self).left() == old(self).left(),
            final(self).output() == old(self).output().give(key.model(), models(rows@)),
            flat(final(changes)@),
            steps_of(final(changes)@) == steps_of(old(changes)@) + old(self).output().told(
                key.model(),
                models(rows@),
            ),
    {
        let ghost k = key.model();
        let ghost entries = models(rows@);
        let ghost before = self.output();
        let ghost want = entries_map(entries);
        let ghost current = before.keys_of(k);
        let ghost live_set = present_keys(entries);
        let ghost stale_set = absent_keys(entries);
        let mut desired: FxMap<OK, OV> = FxMap::new();
        let mut order: OrderedSet<OK> = OrderedSet::new();
        let mut i: usize = 0;
        proof {
            assert(current.no_duplicates());
            assert(entries.take(0) =~= Seq::empty());
            assert(entry_keys(entries).take(0) =~= Seq::empty());
        }
        while i < rows.len()
            invariant
                i <= rows@.len(),
                entries == models(rows@),
                order.wf(),
                desired@ == entries_map(entries.take(i as int)),
                order@ == extend_new(Seq::empty(), entry_keys(entries).take(i as int)),
            decreases rows@.len() - i,
        {
            proof {
                assert(entries.take(i + 1).drop_last() =~= entries.take(i as int));
                assert(entries.take(i + 1).last() == rows@[i as int].model());
                assert(entry_keys(entries).take(i + 1).drop_last() =~= entry_keys(entries).take(
                    i as int,
                ));
                assert(entry_keys(entries).take(i + 1).last() == rows@[i as int].0.model());
            }
            order.insert(rows[i].0.clone_value());
            desired.insert(rows[i].0.clone_value(), rows[i].1.clone_value());
            i += 1;
        }
        proof {
            assert(entries.take(i as int) =~= entries);
            assert(entry_keys(entries).take(i as int) =~= entry_keys(entries));
            entries_map_keys(entries);
        }
        let current_keys: Vec<OK> = match self.left_output_keys.remove(key) {
            Some(keys) => keys,
            None => Vec::new(),
        };
        let ghost start = steps_of(changes@);
        let mut live: OrderedSet<OK> = OrderedSet::new();
        let ghost cache = self.output_cache@;
        let mut n: usize = 0;
        proof {
            assert(models(current_keys@) =~= current);
            assert(current.take(0) =~= Seq::empty());
            assert(kept(current.take(0), stale_set) =~= Seq::empty());
            assert(kept(current.take(0), live_set) =~= Seq::empty());
            assert(start + delta(cache, Seq::<OK::Model>::empty(), want) =~= start);
        }
        while n < current_keys.len()
            invariant
                n <= current_keys@.len(),
                current == models(current_keys@),
                current.no_duplicates(),
                desired@ == want,
                forall|o: OK::Model| #[trigger]
                    want.contains_key(o) <==> entry_keys(entries).contains(o),
                live_set == present_keys(entries),
                stale_set == absent_keys(entries),
                live.wf(),
                live@ == kept(current.take(n as int), live_set),
                self.left@ == old(self).left@,
                self.left_output_keys@ == before.owned.remove(k),
                self.output_cache@ == put_all(cache, kept(current.take(n as int), stale_set), want),
                flat(changes@),
                steps_of(changes@) == start + delta(
                    cache,
                    kept(current.take(n as int), stale_set),
                    want,
                ),
            decreases current_keys@.len() - n,
        {
            let output_key = &current_keys[n];
            let ghost o = output_key.model();
            let ghost part = kept(current.take(n as int), stale_set);
            proof {
                assert(current.take(n + 1).drop_last() =~= current.take(n as int));
                assert(current.take(n + 1).last() == o);
                kept_contains(current.take(n as int), live_set);
                assert(!current.take(n as int).contains(o));
            }
            if desired.contains_key(output_key) {
                live.insert(output_key.clone_value());
            } else {
                proof {
                    assert(part.push(o).drop_last() =~= part);
                    let last = commit_change(o, lookup(self.output_cache@, o), None);
                    assert((start + delta(cache, part, want)) + last =~= start + (delta(
                        cache,
                        part,
                        want,
                    ) + last));
                }
                commit_keyed_value(
                    &mut self.output_cache,
                    output_key.clone_value(),
                    None,
                    changes,
                );
            }
            n += 1;
        }
        let ghost stale = stale_keys(current, entries);
        proof {
            assert(current.take(n as int) =~= current);
        }
        let fresh = order.drain();
        let ghost fresh_keys = models(fresh@);
        let mut m: usize = 0;
        proof {
            assert(fresh_keys == distinct_keys(entries));
            assert(stale + fresh_keys.take(0) =~= stale);
            assert(fresh_keys.take(0) =~= Seq::empty());
        }
        while m < fresh.len()
            invariant
                m <= fresh@.len(),
                fresh_keys == models(fresh@),
                desired@ == want,
                live.wf(),
                live@ == extend_new(live_keys(current, entries), fresh_keys.take(m as int)),
                self.left@ == old(self).left@,
                self.left_output_keys@ == before.owned.remove(k),
                self.output_cache@ == put_all(cache, stale + fresh_keys.take(m as int), want),
                flat(changes@),
                steps_of(changes@) == start + delta(cache, stale + fresh_keys.take(m as int), want),
            decreases fresh@.len() - m,
        {
            let output_key = &fresh[m];
            let ghost o = output_key.model();
            let ghost part = stale + fresh_keys.take(m as int);
            proof {
                assert(fresh_keys.take(m + 1).drop_last() =~= fresh_keys.take(m as int));
                assert((stale + fresh_keys.take(m + 1)).drop_last() =~= part);
                assert((stale + fresh_keys.take(m + 1)).last() == o);
            }
            live.insert(output_key.clone_value());
            let new_value: Option<OV> = match desired.get(output_key) {
                Some(value) => Some(value.clone_value()),
                None => None,
            };
            proof {
                let last = commit_change(o, lookup(self.output_cache@, o), lookup(want, o));
                assert((start + delta(cache, part, want)) + last =~= start + (delta(
                    cache,
                    part,
                    want,
                ) + last));
            }
            commit_keyed_value(&mut self.output_cache, output_key.clone_value(), new_value, changes);
            m += 1;
        }
        proof {
            assert(fresh_keys.take(m as int) =~= fresh_keys);
            live.distinct();
        }
        let keys = live.drain();
        proof {
            assert(models(keys@).len() == keys@.len());
        }
        if keys.len() > 0 {
            self.left_output_keys.insert(key.clone_value(), keys);
        }
        proof {
            let after = self.output();
            assert(after.owned =~= before.give(k, entries).owned);
            assert forall|x: LK::Model| (#[trigger] after.keys_of(x)).no_duplicates() by {
                if x != k {
                    assert(after.keys_of(x) == before.keys_of(x));
                }
            }
        }
    }

    /// Brings the output of touched left rows up to date, and tells the changes.
    pub fn recompute_impacted<
        RK: MapKey,
        RV: CellValue,
        FO: RowsFn<LK, LV, RK, RV, Vec<(OK, OV)>>,
    >(
        &mut self,
        right: &RelationIndex<RK, RV, JK>,
        impacted: &Vec<LK>,
        compute_rows: &FO,
    ) -> (changes: Vec<MapDiff<OK, OV>>)
        requires
            old(self).wf(),
            right.wf(),
            pure_rows::<LK, LV, RK, RV, Vec<(OK, OV)>, FO>(*compute_rows),
        ensures
            final(self).wf(),
            final(self).left() == old(self).left(),
            final(self).output() == old(self).output().give_all(
                models(impacted@),
                given_rows(
                    old(self).left(),
                    right@,
                    computation::<LK, LV, RK, RV, OK, OV, FO>(*compute_rows),
                ),
            ),
            flat(changes@),
            steps_of(changes@) == old(self).output().told_all(
                models(impacted@),
                given_rows(
                    old(self).left(),
                    right@,
                    computation::<LK, LV, RK, RV, OK, OV, FO>(*compute_rows),
                ),
            ),
    {
        let ghost rows = given_rows(
            self.left(),
            right@,
            computation::<LK, LV, RK, RV, OK, OV, FO>(*compute_rows),
        );
        let ghost all = models(impacted@);
        let mut changes: Vec<MapDiff<OK, OV>> = Vec::new();
        let mut i: usize = 0;
        assert(all.take(0) =~= Seq::empty());
        while i < impacted.len()
            invariant
                i <= impacted@.len(),
                all == models(impacted@),
                right.wf(),
                pure_rows::<LK, LV, RK, RV, Vec<(OK, OV)>, FO>(*compute_rows),
                rows == given_rows(
                    self.left(),
                    right@,
                    computation::<LK, LV, RK, RV, OK, OV, FO>(*compute_rows),
                ),
                self.wf(),
                self.left() == old(self).left(),
                self.output() == old(self).output().give_all(all.take(i as int), rows),
                flat(changes@),
                steps_of(changes@) == old(self).output().told_all(all.take(i as int), rows),
            decreases impacted@.len() - i,
        {
            proof {
                assert(all.take(i + 1).drop_last() =~= all.take(i as int));
                assert(all.take(i + 1).last() == impacted@[i as int].model());
            }
            let given = self.rows_for(right, &impacted[i], compute_rows);
            self.give_rows(&impacted[i], given, &mut changes);
            i += 1;
        }
        assert(all.take(i as int) =~= all);
        changes
    }

    /// Follows a diff of the left rows, and tells how the output changes.
    pub fn apply_left<
        RK: MapKey,
        RV: CellValue,
        FL: RowFn<LK, LV, JK>,
        FO: RowsFn<LK, LV, RK, RV, Vec<(OK, OV)>>,
    >(
        &mut self,
        right: &RelationIndex<RK, RV, JK>,
        diff: &MapDiff<LK, LV>,
        left_join_key: &FL,
        compute_rows: &FO,
    ) -> (changes: Vec<MapDiff<OK, OV>>)
        requires
            old(self).wf(),
            right.wf(),
            pure2::<LK, LV, JK, FL>(*left_join_key),
            pure_rows::<LK, LV, RK, RV, Vec<(OK, OV)>, FO>(*compute_rows),
        ensures
            final(self).wf(),
            final(self).left() == old(self).left().run(
                diff.steps(),
                total_key::<LK, LV, JK, FL>(*left_join_key),
            ),
            flat(changes@),
            exists|keys: Seq<LK::Model>|
                #![trigger old(self).output().give_all(keys, given_rows(final(self).left(), right@, computation::<LK, LV, RK, RV, OK, OV, FO>(*compute_rows)))]
                old(self).left().keys_run(
                    diff.steps(),
                    total_key::<LK, LV, JK, FL>(*left_join_key),
                    Seq::empty(),
                    keys,
                ) && final(self).output() == old(self).output().give_all(
                    keys,
                    given_rows(
                        final(self).left(),
                        right@,
                        computation::<LK, LV, RK, RV, OK, OV, FO>(*compute_rows),
                    ),
                ) && steps_of(changes@) == old(self).output().told_all(
                    keys,
                    given_rows(
                        final(self).left(),
                        right@,
                        computation::<LK, LV, RK, RV, OK, OV, FO>(*compute_rows),
                    ),
                ),
            fits_all(old(self).output().cache, steps_of(changes@)),
            replay(old(self).output().cache, steps_of(changes@)) == final(self).output().cache,
    {
        let mut impacted: OrderedSet<LK> = OrderedSet::new();
        let ghost side = self.left@;
        let ghost jk = total_key::<LK, LV, JK, FL>(*left_join_key);
        self.left.apply_left_diff(diff, left_join_key, &mut impacted);
        let keys = impacted.drain();
        proof {
            side.run_effect(diff.steps(), jk);
            assert(self.output() == old(self).output());
            assert forall|k: LK::Model| (#[trigger] self.output().keys_of(k)).no_duplicates() by {
                let _ = old(self).output().keys_of(k);
            }
        }
        let ghost rows = given_rows(
            self.left(),
            right@,
            computation::<LK, LV, RK, RV, OK, OV, FO>(*compute_rows),
        );
        let changes = self.recompute_impacted(right, &keys, compute_rows);
        proof {
            old(self).output().told_all_replays(models(keys@), rows);
            assert(self.output() == old(self).output().give_all(models(keys@), rows));
        }
        changes
    }

    /// Lets a diff change the right rows, and tells how the output changes.
    pub fn apply_right<
        RK: MapKey,
        RV: CellValue,
        FR: RightJoinKey<RK, RV, JK>,
        FO: RowsFn<LK, LV, RK, RV, Vec<(OK, OV)>>,
    >(
        &mut self,
        right: &mut RelationIndex<RK, RV, JK>,
        diff: &MapDiff<RK, RV>,
        right_join_key: &FR,
        compute_rows: &FO,
    ) -> (changes: Vec<MapDiff<OK, OV>>)
        requires
            old(self).wf(),
            old(right).wf(),
            right_join_key.lawful(),
            pure_rows::<LK, LV, RK, RV, Vec<(OK, OV)>, FO>(*compute_rows),
        ensures
            final(self).wf(),
            final(right).wf(),
            final(right)@ == old(right)@.run(diff.steps(), right_key::<RK, RV, JK, FR>(*right_join_key)),
            final(self).left() == old(self).left(),
            flat(changes@),
            exists|joins: Seq<JK::Model>|
                #![trigger old(self).left().extend_members(joins, Seq::empty())]
                old(right)@.joins_run(
                    diff.steps(),
                    right_key::<RK, RV, JK, FR>(*right_join_key),
                    Seq::empty(),
                    joins,
                ) && final(self).output() == old(self).output().give_all(
                    old(self).left().extend_members(joins, Seq::empty()),
                    given_rows(
                        old(self).left(),
                        final(right)@,
                        computation::<LK, LV, RK, RV, OK, OV, FO>(*compute_rows),
                    ),
                ) && steps_of(changes@) == old(self).output().told_all(
                    old(self).left().extend_members(joins, Seq::empty()),
                    given_rows(
                        old(self).left(),
                        final(right)@,
                        computation::<LK, LV, RK, RV, OK, OV, FO>(*compute_rows),
                    ),
                ),
            fits_all(old(self).output().cache, steps_of(changes@)),
            replay(old(self).output().cache, steps_of(changes@)) == final(self).output().cache,
    {
        let mut changed: OrderedSet<JK> = OrderedSet::new();
        let mut impacted: OrderedSet<LK> = OrderedSet::new();
        right.apply_diff(diff, right_join_key, &mut changed);
        let joins = changed.drain();
        self.left.collect_members(&joins, &mut impacted);
        let keys = impacted.drain();
        let ghost rows = given_rows(
            self.left(),
            right@,
            computation::<LK, LV, RK, RV, OK, OV, FO>(*compute_rows),
        );
        let changes = self.recompute_impacted(right, &keys, compute_rows);
        proof {
            old(self).output().told_all_replays(models(keys@), rows);
            assert(models(keys@) == old(self).left().extend_members(models(joins@), Seq::empty()));
        }
        changes
    }
}

} // verus!
