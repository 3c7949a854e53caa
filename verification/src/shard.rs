//! Dividing a side of a join by join key.
use vstd::prelude::*;

use crate::diff::{entries_map, fits_all, replay, Change};
use crate::fx::lookup;
use crate::index::{add_member, empty_side, entry_keys, Side};

verus! {

/// The part of a side whose join keys a shard is responsible for.
pub open spec fn part<K, V, J>(side: Side<K, V, J>, route: spec_fn(J) -> int, shard: int) -> Side<
    K,
    V,
    J,
> {
    Side {
        rows: Map::new(
            |k: K| side.rows.contains_key(k) && route(side.keys[k]) == shard,
            |k: K| side.rows[k],
        ),
        keys: Map::new(
            |k: K| side.keys.contains_key(k) && route(side.keys[k]) == shard,
            |k: K| side.keys[k],
        ),
        members: Map::new(
            |j: J| side.members.contains_key(j) && route(j) == shard,
            |j: J| side.members[j],
        ),
    }
}

/// A join key, if the shard is responsible for it.
pub open spec fn part_join<J>(join: Option<J>, route: spec_fn(J) -> int, shard: int) -> Option<J> {
    match join {
        Some(j) => if route(j) == shard {
            Some(j)
        } else {
            None
        },
        None => None,
    }
}

/// Equal fields make equal sides.
pub proof fn side_ext<K, V, J>(a: Side<K, V, J>, b: Side<K, V, J>)
    requires
        a.rows =~= b.rows,
        a.keys =~= b.keys,
        a.members =~= b.members,
    ensures
        a == b,
{
}

/// The part of a well-formed side is well formed, and has the rows of its join keys.
pub proof fn part_wf<K, V, J>(side: Side<K, V, J>, route: spec_fn(J) -> int, shard: int)
    requires
        side.wf(),
    ensures
        part(side, route, shard).wf(),
        forall|j: J|
            route(j) == shard ==> #[trigger] part(side, route, shard).matches_of(j) == side.matches_of(j),
{
    let p = part(side, route, shard);
    assert forall|k: K| #[trigger] p.rows.contains_key(k) == p.keys.contains_key(k) by {
        assert(side.rows.contains_key(k) == side.keys.contains_key(k));
    }
    assert forall|j: J, k: K| #[trigger] p.member(j, k) == (p.keys.contains_key(k) && p.keys[k] == j) by {
        assert(side.member(j, k) == (side.keys.contains_key(k) && side.keys[k] == j));
    }
    assert forall|j: J| route(j) == shard implies #[trigger] p.matches_of(j) == side.matches_of(j) by {
        assert(p.members_of(j) =~= side.members_of(j));
        assert forall|i: int| 0 <= i < side.members_of(j).len() implies p.rows[side.members_of(j)[i]]
            == side.rows[side.members_of(j)[i]] by {
            let k = side.members_of(j)[i];
            assert(side.members_of(j).contains(k));
            assert(side.member(j, k));
            assert(side.rows.contains_key(k) == side.keys.contains_key(k));
        }
        assert(p.matches_of(j) =~= side.matches_of(j));
    }
}

/// Dropping a row that is not there changes nothing.
pub proof fn dropped_absent<K, V, J>(side: Side<K, V, J>, k: K)
    requires
        side.wf(),
        !side.rows.contains_key(k),
    ensures
        side.dropped(k) == side,
{
    assert(side.rows.contains_key(k) == side.keys.contains_key(k));
    side_ext(side.dropped(k), side);
}

/// The part of a side without a row is the part without that row.
pub proof fn part_dropped<K, V, J>(side: Side<K, V, J>, route: spec_fn(J) -> int, shard: int, k: K)
    requires
        side.wf(),
    ensures
        part(side.dropped(k), route, shard) == part(side, route, shard).dropped(k),
{
    assert(side.rows.contains_key(k) == side.keys.contains_key(k));
    if side.keys.contains_key(k) {
        assert(side.member(side.keys[k], k));
    }
    side_ext(part(side.dropped(k), route, shard), part(side, route, shard).dropped(k));
}

/// The part of a side with a row set is the part with that row set, if the row belongs to the
/// shard, and without it otherwise.
pub proof fn part_set<K, V, J>(
    side: Side<K, V, J>,
    route: spec_fn(J) -> int,
    shard: int,
    k: K,
    v: V,
    join: Option<J>,
)
    requires
        side.wf(),
    ensures
        part(side.set(k, v, join), route, shard) == part(side, route, shard).set(
            k,
            v,
            part_join(join, route, shard),
        ),
{
    assert(side.rows.contains_key(k) == side.keys.contains_key(k));
    match join {
        None => part_dropped(side, route, shard, k),
        Some(j) => {
            let p = part(side, route, shard);
            let a = part(side.set(k, v, join), route, shard);
            let b = p.set(k, v, part_join(join, route, shard));
            side.detached_effect(k);
            if side.keys.contains_key(k) {
                assert(side.member(side.keys[k], k));
            }
            if lookup(side.keys, k) == Some(j) {
                if route(j) == shard {
                    side_ext(a, b);
                } else {
                    assert(!p.keys.contains_key(k));
                    side_ext(a, b);
                }
            } else {
                part_detached(side, route, shard, k);
                if route(j) == shard {
                    assert(lookup(p.keys, k) != Some(j));
                    assert(a.members =~= add_member(p.detached(k), j, k));
                    side_ext(a, b);
                } else {
                    assert(a.members =~= p.detached(k));
                    side_ext(a, b);
                }
            }
        },
    }
}

proof fn part_detached<K, V, J>(side: Side<K, V, J>, route: spec_fn(J) -> int, shard: int, k: K)
    requires
        side.wf(),
    ensures
        part(side, route, shard).detached(k) == Map::new(
            |j: J| side.detached(k).contains_key(j) && route(j) == shard,
            |j: J| side.detached(k)[j],
        ),
{
    if side.keys.contains_key(k) {
        assert(side.member(side.keys[k], k));
    }
    assert(part(side, route, shard).detached(k) =~= Map::new(
        |j: J| side.detached(k).contains_key(j) && route(j) == shard,
        |j: J| side.detached(k)[j],
    ));
}

impl<K, V, J> Side<K, V, J> {
    /// The change inserts no row that is there, and starts anew with each key once.
    pub open spec fn admits(self, change: Change<K, V>) -> bool {
        match change {
            Change::Initial { entries } => entry_keys(entries).no_duplicates(),
            Change::Insert { key, value } => !self.rows.contains_key(key),
            _ => true,
        }
    }

    /// Each change in turn inserts no row that is there, and starts anew with each key once.
    pub open spec fn admits_all(
        self,
        steps: Seq<Change<K, V>>,
        jk: spec_fn(K, V) -> Option<J>,
    ) -> bool
        decreases steps.len(),
    {
        steps.len() == 0 || (self.admits_all(steps.drop_last(), jk) && self.run(
            steps.drop_last(),
            jk,
        ).admits(steps.last()))
    }

    /// Every row of the side is a row of the map.
    pub open spec fn within(self, m: Map<K, V>) -> bool {
        forall|k: K| #[trigger] self.rows.contains_key(k) ==> m.contains_key(k)
    }

    pub proof fn load_within(
        self,
        entries: Seq<(K, V)>,
        jk: spec_fn(K, V) -> Option<J>,
        m: Map<K, V>,
    )
        requires
            self.rows.dom() =~= Set::empty(),
        ensures
            self.load(entries, jk).within(entries_map(entries)),
        decreases entries.len(),
    {
        if entries.len() > 0 {
            self.load_within(entries.drop_last(), jk, m);
        }
    }

    /// Changes that tell the truth about a map are admitted by the rows of it that have a join key.
    pub proof fn fitting_steps_are_admitted(
        self,
        m: Map<K, V>,
        steps: Seq<Change<K, V>>,
        jk: spec_fn(K, V) -> Option<J>,
    )
        requires
            self.within(m),
            fits_all(m, steps),
        ensures
            self.admits_all(steps, jk),
            self.run(steps, jk).within(replay(m, steps)),
        decreases steps.len(),
    {
        if steps.len() > 0 {
            let rest = steps.drop_last();
            self.fitting_steps_are_admitted(m, rest, jk);
            match steps.last() {
                Change::Initial { entries } => {
                    empty_side::<K, V, J>().load_within(entries, jk, m);
                },
                _ => {},
            }
        }
    }
}

} // verus!
