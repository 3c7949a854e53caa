//! Collecting the rows of each group, in the order of their keys.
use std::marker::PhantomData;
use vstd::prelude::*;

use crate::count_by::group_of;
use crate::diff::{entries_map, fits_all, replay, Change};
use crate::diff_runtime::{
    group_fns, grouping_follows_source, install_grouped_runtime_via_query, works_all, no_groups,
    DiffDriver, DiffRuntime, GroupFns, Grouped, GroupedOps, GroupedRuntime,
};
use crate::func::{call2, closure_known, closure_laws, image2, pure2, row_closure, RowFn};
use crate::fx::lookup;
use crate::index::entry_keys;
use crate::join_region::declaration::row_values;
use crate::query::{Many, MapQuery, PlanProperties, Repartition};
use crate::value::{models, models_push, CellValue, MapKey};

verus! {

/// A key with an order.
pub trait OrderedKey: MapKey {
    /// One key comes before another.
    spec fn key_before(a: Self::Model, b: Self::Model) -> bool;

    /// Of two different keys one comes before the other, and none comes before itself.
    proof fn total(a: Self::Model, b: Self::Model)
        ensures
            Self::key_before(a, b) || a == b || Self::key_before(b, a),
            !(Self::key_before(a, b) && Self::key_before(b, a)),
            !Self::key_before(a, a),
    ;

    proof fn transitive(a: Self::Model, b: Self::Model, c: Self::Model)
        requires
            Self::key_before(a, b),
            Self::key_before(b, c),
        ensures
            Self::key_before(a, c),
    ;

    fn is_before(&self, other: &Self) -> (before: bool)
        ensures
            before == Self::key_before(self.model(), other.model()),
    ;
}

impl OrderedKey for u64 {
    open spec fn key_before(a: u64, b: u64) -> bool {
        a < b
    }

    proof fn total(a: u64, b: u64) {
    }

    proof fn transitive(a: u64, b: u64, c: u64) {
    }

    fn is_before(&self, other: &u64) -> (before: bool)
        ensures
            before == (*self < *other),
    {
        *self < *other
    }
}

impl OrderedKey for u32 {
    open spec fn key_before(a: u32, b: u32) -> bool {
        a < b
    }

    proof fn total(a: u32, b: u32) {
    }

    proof fn transitive(a: u32, b: u32, c: u32) {
    }

    fn is_before(&self, other: &u32) -> (before: bool)
        ensures
            before == (*self < *other),
    {
        *self < *other
    }
}

impl OrderedKey for i32 {
    open spec fn key_before(a: i32, b: i32) -> bool {
        a < b
    }

    proof fn total(a: i32, b: i32) {
    }

    proof fn transitive(a: i32, b: i32, c: i32) {
    }

    fn is_before(&self, other: &i32) -> (before: bool)
        ensures
            before == (*self < *other),
    {
        *self < *other
    }
}

/// A text comes before another in the order of their characters' code points, from the first
/// character on.
pub open spec fn text_before(a: Seq<char>, b: Seq<char>) -> bool
    decreases a.len(),
{
    if b.len() == 0 {
        false
    } else if a.len() == 0 {
        true
    } else if a[0] == b[0] {
        text_before(a.skip(1), b.skip(1))
    } else {
        a[0] < b[0]
    }
}

/// `String::lt`: strings are ordered by the code points of their characters, from the first on.
#[verifier::external_body]
fn text_is_before(a: &String, b: &String) -> (before: bool)
    ensures
        before == text_before(a@, b@),
{
    a < b
}

/// Two texts are the same before a place, and there is no longer such a place.
pub open spec fn same_up_to(a: Seq<char>, b: Seq<char>, i: int) -> bool {
    &&& 0 <= i <= a.len()
    &&& i <= b.len()
    &&& forall|j: int| 0 <= j < i ==> #[trigger] a[j] == #[trigger] b[j]
    &&& i < a.len() && i < b.len() ==> a[i] != b[i]
}

proof fn same_up_to_once(a: Seq<char>, b: Seq<char>, i: int)
    requires
        same_up_to(a, b, i),
    ensures
        forall|j: int| #[trigger] same_up_to(a, b, j) ==> j == i,
{
    assert forall|j: int| #[trigger] same_up_to(a, b, j) implies j == i by {
        if j < i {
            assert(a[j] == b[j]);
        }
        if i < j {
            assert(a[i] == b[i]);
        }
    }
}

/// The order of texts: at the first place where they differ the earlier text has the smaller
/// character, and a text comes before every longer one that begins with it.
pub proof fn text_order(a: Seq<char>, b: Seq<char>) -> (i: int)
    ensures
        0 <= i <= a.len(),
        i <= b.len(),
        forall|j: int| 0 <= j < i ==> #[trigger] a[j] == #[trigger] b[j],
        i < a.len() && i < b.len() ==> a[i] != b[i],
        text_before(a, b) == (i < b.len() && (i == a.len() || a[i] < b[i])),
        same_up_to(a, b, i),
    decreases a.len(),
{
    if a.len() == 0 || b.len() == 0 || a[0] != b[0] {
        0
    } else {
        let n = text_order(a.skip(1), b.skip(1));
        assert forall|j: int| 0 <= j < n + 1 implies #[trigger] a[j] == #[trigger] b[j] by {
            if j > 0 {
                assert(a.skip(1)[j - 1] == b.skip(1)[j - 1]);
            }
        }
        n + 1
    }
}

/// The keys of a collecting runtime are ordered as their types are.
pub proof fn key_orders(a: u64, b: u64, c: u32, d: u32, e: i32, f: i32, g: Seq<char>, h: Seq<char>)
    ensures
        <u64 as OrderedKey>::key_before(a, b) == (a < b),
        <u32 as OrderedKey>::key_before(c, d) == (c < d),
        <i32 as OrderedKey>::key_before(e, f) == (e < f),
        <String as OrderedKey>::key_before(g, h) == exists|i: int| #[trigger]
            same_up_to(g, h, i) && i < h.len() && (i == g.len() || g[i] < h[i]),
{
    let i = text_order(g, h);
    same_up_to_once(g, h, i);
}

proof fn text_total(a: Seq<char>, b: Seq<char>)
    ensures
        text_before(a, b) || a == b || text_before(b, a),
        !(text_before(a, b) && text_before(b, a)),
        !text_before(a, a),
    decreases a.len(),
{
    if a.len() > 0 {
        text_total(a.skip(1), a.skip(1));
    }
    if a.len() > 0 && b.len() > 0 {
        text_total(a.skip(1), b.skip(1));
        if a[0] == b[0] && a.skip(1) == b.skip(1) {
            assert(a[0] == b[0]);
            assert forall|i: int| 0 <= i < a.len() implies a[i] == b[i] by {
                if i > 0 {
                    assert(a[i] == a.skip(1)[i - 1]);
                    assert(b[i] == b.skip(1)[i - 1]);
                }
            }
            assert(a.len() == b.len()) by {
                assert(a.skip(1).len() == b.skip(1).len());
            }
            assert(a =~= b);
        }
    } else if a.len() == 0 && b.len() == 0 {
        assert(a =~= b);
    }
}

proof fn text_transitive(a: Seq<char>, b: Seq<char>, c: Seq<char>)
    requires
        text_before(a, b),
        text_before(b, c),
    ensures
        text_before(a, c),
    decreases a.len(),
{
    if a.len() > 0 && a[0] == b[0] && b[0] == c[0] {
        text_transitive(a.skip(1), b.skip(1), c.skip(1));
    }
}

impl OrderedKey for String {
    open spec fn key_before(a: Seq<char>, b: Seq<char>) -> bool {
        text_before(a, b)
    }

    proof fn total(a: Seq<char>, b: Seq<char>) {
        text_total(a, b);
    }

    proof fn transitive(a: Seq<char>, b: Seq<char>, c: Seq<char>) {
        text_transitive(a, b, c);
    }

    fn is_before(&self, other: &String) -> (before: bool)
        ensures
            before == exists|i: int| #[trigger]
                same_up_to(self@, other@, i) && i < other@.len() && (i == self@.len() || self@[i]
                    < other@[i]),
    {
        proof {
            let i = text_order(self@, other@);
            same_up_to_once(self@, other@, i);
        }
        text_is_before(self, other)
    }
}

/// Rows in the order of their keys, each key once.
pub open spec fn key_ordered<K: OrderedKey, V>(rows: Seq<(K::Model, V)>) -> bool {
    forall|i: int, j: int|
        0 <= i < j < rows.len() ==> K::key_before((#[trigger] rows[i]).0, (#[trigger] rows[j]).0)
}

/// The number of rows from the first on whose keys come before a key.
pub open spec fn place_of<K: OrderedKey, V>(rows: Seq<(K::Model, V)>, k: K::Model) -> nat
    decreases rows.len(),
{
    if rows.len() == 0 {
        0
    } else if K::key_before(rows[0].0, k) {
        1 + place_of::<K, V>(rows.skip(1), k)
    } else {
        0
    }
}

/// Rows with the row of a key set at its place.
pub open spec fn put_row<K: OrderedKey, V>(rows: Seq<(K::Model, V)>, k: K::Model, v: V) -> Seq<
    (K::Model, V),
> {
    let p = place_of::<K, V>(rows, k) as int;
    if p < rows.len() && rows[p].0 == k {
        rows.update(p, (k, v))
    } else {
        rows.insert(p, (k, v))
    }
}

/// Rows without the row of a key.
pub open spec fn drop_row<K: OrderedKey, V>(rows: Seq<(K::Model, V)>, k: K::Model) -> Seq<
    (K::Model, V),
> {
    let p = place_of::<K, V>(rows, k) as int;
    if p < rows.len() && rows[p].0 == k {
        rows.remove(p)
    } else {
        rows
    }
}

/// Collecting as a grouping: the state of a group is its rows in the order of their keys.
pub struct CollectOps<F> {
    pub group_key: F,
}

fn find_place<K: OrderedKey, V: CellValue>(rows: &Vec<(K, V)>, key: &K) -> (place: usize)
    ensures
        place == place_of::<K, V::Model>(models(rows@), key.model()),
        place <= rows@.len(),
{
    let ghost all = models(rows@);
    let mut p: usize = 0;
    assert(all.skip(0) =~= all);
    while p < rows.len() && rows[p].0.is_before(key)
        invariant
            p <= rows@.len(),
            all == models(rows@),
            place_of::<K, V::Model>(all, key.model()) == p + place_of::<K, V::Model>(
                all.skip(p as int),
                key.model(),
            ),
        decreases rows@.len() - p,
    {
        proof {
            assert(all.skip(p as int)[0] == all[p as int]);
            assert(all.skip(p as int).skip(1) =~= all.skip(p + 1));
        }
        p += 1;
    }
    proof {
        if p < rows@.len() {
            assert(all.skip(p as int)[0] == all[p as int]);
        }
    }
    p
}

impl<
    SK: OrderedKey,
    SV: CellValue,
    GK: MapKey,
    F: RowFn<SK, SV, GK>,
> GroupedOps<SK, SV, GK, Vec<SV>> for CollectOps<F> {
    type State = Vec<(SK, SV)>;

    open spec fn lawful(&self) -> bool {
        pure2::<SK, SV, GK, F>(self.group_key)
    }

    open spec fn group_of(&self, key: SK::Model, value: SV::Model) -> GK::Model {
        image2::<SK, SV, GK, F>(self.group_key, key, value)
    }

    open spec fn fresh(&self) -> Seq<(SK::Model, SV::Model)> {
        Seq::empty()
    }

    open spec fn inserted(
        &self,
        state: Seq<(SK::Model, SV::Model)>,
        key: SK::Model,
        value: SV::Model,
    ) -> Seq<(SK::Model, SV::Model)> {
        put_row::<SK, SV::Model>(state, key, value)
    }

    open spec fn updated(
        &self,
        state: Seq<(SK::Model, SV::Model)>,
        key: SK::Model,
        old_value: SV::Model,
        new_value: SV::Model,
    ) -> Seq<(SK::Model, SV::Model)> {
        put_row::<SK, SV::Model>(state, key, new_value)
    }

    open spec fn removed(
        &self,
        state: Seq<(SK::Model, SV::Model)>,
        key: SK::Model,
        old_value: SV::Model,
    ) -> Seq<(SK::Model, SV::Model)> {
        drop_row::<SK, SV::Model>(state, key)
    }

    open spec fn materialized(&self, state: Seq<(SK::Model, SV::Model)>) -> Seq<SV::Model> {
        row_values(state)
    }

    open spec fn vacant(&self, state: Seq<(SK::Model, SV::Model)>) -> bool {
        state.len() == 0
    }

    fn make_group_key(&self, key: &SK, value: &SV) -> (group: GK)
        ensures
            group.model() == self.group_key.image(key.model(), value.model()),
    {
        call2(&self.group_key, key, value)
    }

    fn new_group_state(&self) -> (state: Vec<(SK, SV)>)
        ensures
            state@.len() == 0,
    {
        let state: Vec<(SK, SV)> = Vec::new();
        assert(models(state@) =~= Seq::empty());
        state
    }

    fn on_insert(&self, state: Vec<(SK, SV)>, key: &SK, value: &SV) -> (next: Vec<(SK, SV)>) {
        let mut rows = state;
        let place = find_place(&rows, key);
        let entry = (key.clone_value(), value.clone_value());
        let ghost all = models(state@);
        let same: bool = place < rows.len() && rows[place].0.equals(key);
        if same {
            rows.set(place, entry);
            assert(models(rows@) =~= all.update(place as int, (key.model(), value.model())));
        } else {
            rows.insert(place, entry);
            assert(models(rows@) =~= all.insert(place as int, (key.model(), value.model())));
        }
        rows
    }

    fn on_update(&self, state: Vec<(SK, SV)>, key: &SK, old_value: &SV, new_value: &SV) -> (next: Vec<
        (SK, SV),
    >) {
        <Self as GroupedOps<SK, SV, GK, Vec<SV>>>::on_insert(self, state, key, new_value)
    }

    fn on_remove(&self, state: Vec<(SK, SV)>, key: &SK, old_value: &SV) -> (next: Vec<(SK, SV)>) {
        let mut rows = state;
        let place = find_place(&rows, key);
        let ghost all = models(state@);
        let same: bool = place < rows.len() && rows[place].0.equals(key);
        if same {
            let _ = rows.remove(place);
            assert(models(rows@) =~= all.remove(place as int));
        }
        rows
    }

    fn materialize(&self, state: &Vec<(SK, SV)>) -> (value: Vec<SV>)
        ensures
            value@.len() == state@.len(),
            forall|i: int|
                0 <= i < state@.len() ==> (#[trigger] value@[i]).model() == state@[i].1.model(),
    {
        let mut values: Vec<SV> = Vec::new();
        let ghost want = row_values(models(state@));
        let mut i: usize = 0;
        assert(models(values@) =~= want.take(0));
        while i < state.len()
            invariant
                i <= state@.len(),
                want == row_values(models(state@)),
                models(values@) == want.take(i as int),
                values@.len() == i,
                forall|j: int| 0 <= j < i ==> (#[trigger] values@[j]).model() == state@[j].1.model(),
            decreases state@.len() - i,
        {
            let value = state[i].1.clone_value();
            proof {
                models_push(values@, value);
                assert(want.take(i as int).push(value.model()) =~= want.take(i + 1));
            }
            values.push(value);
            i += 1;
        }
        assert(want.take(i as int) =~= want);
        values
    }

    fn is_empty(&self, state: &Vec<(SK, SV)>) -> (empty: bool)
        ensures
            empty == (state@.len() == 0),
    {
        assert(models(state@).len() == state@.len());
        state.len() == 0
    }
}

proof fn place_found<K: OrderedKey, V>(rows: Seq<(K::Model, V)>, k: K::Model)
    ensures
        place_of::<K, V>(rows, k) <= rows.len(),
        forall|i: int| 0 <= i < place_of::<K, V>(rows, k) ==> K::key_before((#[trigger] rows[i]).0, k),
        place_of::<K, V>(rows, k) < rows.len() ==> !K::key_before(
            rows[place_of::<K, V>(rows, k) as int].0,
            k,
        ),
    decreases rows.len(),
{
    if rows.len() > 0 && K::key_before(rows[0].0, k) {
        let rest = rows.skip(1);
        place_found::<K, V>(rest, k);
        let p = place_of::<K, V>(rest, k);
        assert forall|i: int| 0 <= i < 1 + p implies K::key_before((#[trigger] rows[i]).0, k) by {
            if i > 0 {
                assert(rest[i - 1] == rows[i]);
            }
        }
        if p < rest.len() {
            assert(rest[p as int] == rows[p as int + 1]);
        }
    }
}

/// What the map of ordered rows holds at a key: the value of the row with that key.
proof fn ordered_lookup<K: OrderedKey, V>(rows: Seq<(K::Model, V)>)
    requires
        key_ordered::<K, V>(rows),
    ensures
        forall|i: int|
            0 <= i < rows.len() ==> lookup(entries_map(rows), (#[trigger] rows[i]).0) == Some(
                rows[i].1,
            ),
        forall|k: K::Model| #[trigger]
            entries_map(rows).contains_key(k) <==> exists|i: int|
                0 <= i < rows.len() && (#[trigger] rows[i]).0 == k,
        forall|i: int, j: int|
            0 <= i < rows.len() && 0 <= j < rows.len() && (#[trigger] rows[i]).0 == (
            #[trigger] rows[j]).0 ==> i == j,
{
    assert forall|i: int, j: int|
        0 <= i < rows.len() && 0 <= j < rows.len() && (#[trigger] rows[i]).0 == (#[trigger] rows[j]).0
            implies i == j by {
        K::total(rows[i].0, rows[j].0);
        if i < j {
            assert(K::key_before(rows[i].0, rows[j].0));
        } else if j < i {
            assert(K::key_before(rows[j].0, rows[i].0));
        }
    }
    assert forall|i: int| 0 <= i < rows.len() implies lookup(
        entries_map(rows),
        (#[trigger] rows[i]).0,
    ) == Some(rows[i].1) by {
        crate::map_runtime::entry_value(rows, i);
    }
    crate::join_runtime::rows::entries_map_keys(rows);
    assert forall|k: K::Model| #[trigger] entries_map(rows).contains_key(k) <==> exists|i: int|
        0 <= i < rows.len() && (#[trigger] rows[i]).0 == k by {
        let names = entry_keys(rows);
        if names.contains(k) {
            let i = choose|i: int| 0 <= i < names.len() && names[i] == k;
            assert(rows[i].0 == k);
        }
        if exists|i: int| 0 <= i < rows.len() && (#[trigger] rows[i]).0 == k {
            let i = choose|i: int| 0 <= i < rows.len() && (#[trigger] rows[i]).0 == k;
            assert(names[i] == k);
        }
    }
}

/// Setting a row keeps the order, and sets the key in the map of the rows.
pub proof fn put_row_sets<K: OrderedKey, V>(rows: Seq<(K::Model, V)>, k: K::Model, v: V)
    requires
        key_ordered::<K, V>(rows),
    ensures
        key_ordered::<K, V>(put_row::<K, V>(rows, k, v)),
        entries_map(put_row::<K, V>(rows, k, v)) == entries_map(rows).insert(k, v),
        put_row::<K, V>(rows, k, v).len() > 0,
{
    let p = place_of::<K, V>(rows, k) as int;
    let after = put_row::<K, V>(rows, k, v);
    place_found::<K, V>(rows, k);
    if p < rows.len() && rows[p].0 == k {
        assert forall|i: int, j: int| 0 <= i < j < after.len() implies K::key_before(
            (#[trigger] after[i]).0,
            (#[trigger] after[j]).0,
        ) by {
            assert(after[i].0 == rows[i].0 && after[j].0 == rows[j].0);
            assert(K::key_before(rows[i].0, rows[j].0));
        }
    } else {
        assert forall|i: int, j: int| 0 <= i < j < after.len() implies K::key_before(
            (#[trigger] after[i]).0,
            (#[trigger] after[j]).0,
        ) by {
            let a = if i < p { i } else { i - 1 };
            let b = if j < p { j } else { j - 1 };
            if i == p {
                assert(after[j] == rows[b]);
                K::total(rows[p].0, k);
                if b > p {
                    assert(K::key_before(rows[p].0, rows[b].0));
                    K::transitive(k, rows[p].0, rows[b].0);
                }
            } else if j == p {
                assert(after[i] == rows[i]);
            } else {
                assert(after[i] == rows[a] && after[j] == rows[b]);
                assert(K::key_before(rows[a].0, rows[b].0));
            }
        }
    }
    ordered_lookup::<K, V>(rows);
    ordered_lookup::<K, V>(after);
    let m = entries_map(rows).insert(k, v);
    assert forall|x: K::Model| #[trigger] lookup(entries_map(after), x) == lookup(m, x) by {
        assert(after[p] == (k, v));
        if x == k {
            assert(lookup(entries_map(after), after[p].0) == Some(after[p].1));
        } else {
            if entries_map(after).contains_key(x) {
                let i = choose|i: int| 0 <= i < after.len() && (#[trigger] after[i]).0 == x;
                let shifted = p < rows.len() && rows[p].0 == k;
                let n = if i < p || shifted { i } else { i - 1 };
                assert(rows[n] == after[i]);
                assert(lookup(entries_map(rows), rows[n].0) == Some(rows[n].1));
            }
            if entries_map(rows).contains_key(x) {
                let i = choose|i: int| 0 <= i < rows.len() && (#[trigger] rows[i]).0 == x;
                let shifted = p < rows.len() && rows[p].0 == k;
                let n = if i < p || shifted { i } else { i + 1 };
                assert(after[n] == rows[i]);
                assert(lookup(entries_map(after), after[n].0) == Some(after[n].1));
            }
        }
    }
    crate::delta::lookup_ext(entries_map(after), m);
}

/// Dropping a row keeps the order, and drops the key from the map of the rows.
pub proof fn drop_row_drops<K: OrderedKey, V>(rows: Seq<(K::Model, V)>, k: K::Model)
    requires
        key_ordered::<K, V>(rows),
    ensures
        key_ordered::<K, V>(drop_row::<K, V>(rows, k)),
        entries_map(drop_row::<K, V>(rows, k)) == entries_map(rows).remove(k),
{
    let p = place_of::<K, V>(rows, k) as int;
    let after = drop_row::<K, V>(rows, k);
    place_found::<K, V>(rows, k);
    ordered_lookup::<K, V>(rows);
    if p < rows.len() && rows[p].0 == k {
        assert forall|i: int, j: int| 0 <= i < j < after.len() implies K::key_before(
            (#[trigger] after[i]).0,
            (#[trigger] after[j]).0,
        ) by {
            let a = if i < p { i } else { i + 1 };
            let b = if j < p { j } else { j + 1 };
            assert(after[i] == rows[a] && after[j] == rows[b]);
            assert(K::key_before(rows[a].0, rows[b].0));
        }
    }
    ordered_lookup::<K, V>(after);
    let m = entries_map(rows).remove(k);
    assert forall|x: K::Model| #[trigger] lookup(entries_map(after), x) == lookup(m, x) by {
        let found = p < rows.len() && rows[p].0 == k;
        if entries_map(after).contains_key(x) {
            let i = choose|i: int| 0 <= i < after.len() && (#[trigger] after[i]).0 == x;
            let n = if i < p || !found { i } else { i + 1 };
            assert(rows[n] == after[i]);
            assert(lookup(entries_map(rows), rows[n].0) == Some(rows[n].1));
            if x == k {
                if found {
                    assert(rows[n].0 == rows[p].0);
                } else {
                    key_has_place::<K, V>(rows, k, n);
                }
            }
        }
        if entries_map(rows).contains_key(x) && x != k {
            let i = choose|i: int| 0 <= i < rows.len() && (#[trigger] rows[i]).0 == x;
            let n = if i < p || !found { i } else { i - 1 };
            assert(i != p || !found);
            assert(after[n] == rows[i]);
            assert(lookup(entries_map(after), after[n].0) == Some(after[n].1));
        }
    }
    crate::delta::lookup_ext(entries_map(after), m);
}

/// A key that a row has is at its place.
proof fn key_has_place<K: OrderedKey, V>(rows: Seq<(K::Model, V)>, k: K::Model, n: int)
    requires
        key_ordered::<K, V>(rows),
        0 <= n < rows.len(),
        rows[n].0 == k,
    ensures
        place_of::<K, V>(rows, k) == n,
{
    place_found::<K, V>(rows, k);
    let p = place_of::<K, V>(rows, k) as int;
    K::total(k, k);
    if p > n {
        assert(K::key_before(rows[n].0, k));
    }
    if p < n {
        assert(K::key_before(rows[p].0, rows[n].0));
    }
}

/// The functions of collecting.
pub open spec fn collect_fns<SK: OrderedKey, SV, GK>(
    group_of: spec_fn(SK::Model, SV) -> GK,
) -> GroupFns<SK::Model, SV, GK, Seq<(SK::Model, SV)>, Seq<SV>> {
    GroupFns {
        group_of,
        fresh: Seq::empty(),
        inserted: |s: Seq<(SK::Model, SV)>, k: SK::Model, v: SV| put_row::<SK, SV>(s, k, v),
        updated: |s: Seq<(SK::Model, SV)>, k: SK::Model, u: SV, v: SV| put_row::<SK, SV>(s, k, v),
        removed: |s: Seq<(SK::Model, SV)>, k: SK::Model, u: SV| drop_row::<SK, SV>(s, k),
        materialized: |s: Seq<(SK::Model, SV)>| row_values(s),
        vacant: |s: Seq<(SK::Model, SV)>| s.len() == 0,
    }
}

/// The rows of a map that are in a group.
pub open spec fn group_rows<K, V, GK>(
    m: Map<K, V>,
    group_of: spec_fn(K, V) -> GK,
    g: GK,
) -> Map<K, V> {
    Map::new(|k: K| m.contains_key(k) && group_of(k, m[k]) == g, |k: K| m[k])
}

/// Each group of a map holds its rows in the order of their keys, and a group without rows is not
/// there.
pub open spec fn collects<SK: OrderedKey, SV, GK>(
    grouped: Grouped<SK::Model, GK, Seq<(SK::Model, SV)>>,
    m: Map<SK::Model, SV>,
    group_of: spec_fn(SK::Model, SV) -> GK,
) -> bool {
    &&& forall|k: SK::Model| #[trigger] grouped.member.contains_key(k) == m.contains_key(k)
    &&& forall|k: SK::Model| #[trigger]
        grouped.member.contains_key(k) ==> grouped.member[k] == group_of(k, m[k])
    &&& forall|g: GK|
        #![trigger grouped.groups.contains_key(g)]
        if grouped.groups.contains_key(g) {
            &&& grouped.groups[g].len() > 0
            &&& key_ordered::<SK, SV>(grouped.groups[g])
            &&& entries_map(grouped.groups[g]) == group_rows(m, group_of, g)
        } else {
            group_rows(m, group_of, g) == Map::<SK::Model, SV>::empty()
        }
}

/// The rows of the state of a group, or of a new one.
proof fn state_rows<SK: OrderedKey, SV, GK>(
    grouped: Grouped<SK::Model, GK, Seq<(SK::Model, SV)>>,
    m: Map<SK::Model, SV>,
    group_of: spec_fn(SK::Model, SV) -> GK,
    g: GK,
)
    requires
        collects::<SK, SV, GK>(grouped, m, group_of),
    ensures
        key_ordered::<SK, SV>(grouped.state_of(collect_fns::<SK, SV, GK>(group_of), g)),
        entries_map(grouped.state_of(collect_fns::<SK, SV, GK>(group_of), g)) == group_rows(
            m,
            group_of,
            g,
        ),
{
    let _ = grouped.groups.contains_key(g);
}

proof fn collects_put<SK: OrderedKey, SV, GK>(
    grouped: Grouped<SK::Model, GK, Seq<(SK::Model, SV)>>,
    m: Map<SK::Model, SV>,
    group_of: spec_fn(SK::Model, SV) -> GK,
    k: SK::Model,
    v: SV,
)
    requires
        collects::<SK, SV, GK>(grouped, m, group_of),
        m.contains_key(k) ==> group_of(k, m[k]) == group_of(k, v),
    ensures
        collects::<SK, SV, GK>(
            grouped.joined_by(collect_fns::<SK, SV, GK>(group_of), group_of(k, v), k, v),
            m.insert(k, v),
            group_of,
        ),
{
    let fns = collect_fns::<SK, SV, GK>(group_of);
    let g = group_of(k, v);
    let after = grouped.joined_by(fns, g, k, v);
    let m2 = m.insert(k, v);
    state_rows::<SK, SV, GK>(grouped, m, group_of, g);
    put_row_sets::<SK, SV>(grouped.state_of(fns, g), k, v);
    assert(group_rows(m2, group_of, g) =~= group_rows(m, group_of, g).insert(k, v));
    assert forall|x: GK|
        #![trigger after.groups.contains_key(x)]
        if after.groups.contains_key(x) {
            &&& after.groups[x].len() > 0
            &&& key_ordered::<SK, SV>(after.groups[x])
            &&& entries_map(after.groups[x]) == group_rows(m2, group_of, x)
        } else {
            group_rows(m2, group_of, x) == Map::<SK::Model, SV>::empty()
        } by {
        if x != g {
            assert(group_rows(m2, group_of, x) =~= group_rows(m, group_of, x));
            let _ = grouped.groups.contains_key(x);
        }
    }
    assert forall|x: SK::Model| #[trigger] after.member.contains_key(x) implies after.member[x]
        == group_of(x, m2[x]) by {
        if x != k {
            assert(grouped.member.contains_key(x));
        }
    }
}

proof fn collects_drop<SK: OrderedKey, SV, GK>(
    grouped: Grouped<SK::Model, GK, Seq<(SK::Model, SV)>>,
    m: Map<SK::Model, SV>,
    group_of: spec_fn(SK::Model, SV) -> GK,
    k: SK::Model,
)
    requires
        collects::<SK, SV, GK>(grouped, m, group_of),
        m.contains_key(k),
    ensures
        collects::<SK, SV, GK>(
            grouped.left_by(collect_fns::<SK, SV, GK>(group_of), group_of(k, m[k]), k, m[k]),
            m.remove(k),
            group_of,
        ),
{
    let fns = collect_fns::<SK, SV, GK>(group_of);
    let g = group_of(k, m[k]);
    let after = grouped.left_by(fns, g, k, m[k]);
    let m2 = m.remove(k);
    let _ = grouped.groups.contains_key(g);
    assert(group_rows(m, group_of, g).contains_key(k));
    assert(grouped.groups.contains_key(g));
    let rows = grouped.groups[g];
    drop_row_drops::<SK, SV>(rows, k);
    assert(group_rows(m2, group_of, g) =~= group_rows(m, group_of, g).remove(k));
    let rest = drop_row::<SK, SV>(rows, k);
    ordered_lookup::<SK, SV>(rest);
    assert forall|x: GK|
        #![trigger after.groups.contains_key(x)]
        if after.groups.contains_key(x) {
            &&& after.groups[x].len() > 0
            &&& key_ordered::<SK, SV>(after.groups[x])
            &&& entries_map(after.groups[x]) == group_rows(m2, group_of, x)
        } else {
            group_rows(m2, group_of, x) == Map::<SK::Model, SV>::empty()
        } by {
        if x != g {
            assert(group_rows(m2, group_of, x) =~= group_rows(m, group_of, x));
            let _ = grouped.groups.contains_key(x);
        } else if rest.len() == 0 {
            assert(entries_map(rest) == Map::<SK::Model, SV>::empty());
        }
    }
    assert forall|x: SK::Model| #[trigger] after.member.contains_key(x) implies after.member[x]
        == group_of(x, m2[x]) by {
        assert(grouped.member.contains_key(x));
    }
}

proof fn collects_load<SK: OrderedKey, SV, GK>(
    group_of: spec_fn(SK::Model, SV) -> GK,
    entries: Seq<(SK::Model, SV)>,
)
    requires
        entry_keys(entries).no_duplicates(),
    ensures
        collects::<SK, SV, GK>(
            no_groups::<SK::Model, GK, Seq<(SK::Model, SV)>>().load(
                collect_fns::<SK, SV, GK>(group_of),
                entries,
            ),
            entries_map(entries),
            group_of,
        ),
    decreases entries.len(),
{
    let none = no_groups::<SK::Model, GK, Seq<(SK::Model, SV)>>();
    if entries.len() > 0 {
        let rest = entries.drop_last();
        let (k, v) = entries.last();
        assert(entry_keys(rest) =~= entry_keys(entries).drop_last());
        collects_load::<SK, SV, GK>(group_of, rest);
        crate::join_runtime::rows::entries_map_keys(rest);
        assert(!entry_keys(rest).contains(k)) by {
            let names = entry_keys(rest);
            if names.contains(k) {
                let i = choose|i: int| 0 <= i < names.len() && names[i] == k;
                assert(entry_keys(entries)[i] == entry_keys(entries)[entries.len() - 1]);
            }
        }
        collects_put::<SK, SV, GK>(
            none.load(collect_fns::<SK, SV, GK>(group_of), rest),
            entries_map(rest),
            group_of,
            k,
            v,
        );
    } else {
        let m = entries_map(entries);
        assert forall|g: GK| #[trigger] group_rows(m, group_of, g) == Map::<SK::Model, SV>::empty() by {
            assert(group_rows(m, group_of, g) =~= Map::<SK::Model, SV>::empty());
        }
    }
}

/// Collecting follows its source: where changes tell the truth about a map, each group holds the
/// rows that the map has in it, in the order of their keys, and a group without rows is not there.
pub proof fn collects_follow_source<SK: OrderedKey, SV, GK>(
    grouped: Grouped<SK::Model, GK, Seq<(SK::Model, SV)>>,
    m: Map<SK::Model, SV>,
    group_of: spec_fn(SK::Model, SV) -> GK,
    steps: Seq<Change<SK::Model, SV>>,
)
    requires
        collects::<SK, SV, GK>(grouped, m, group_of),
        fits_all(m, steps),
    ensures
        collects::<SK, SV, GK>(
            grouped.run(collect_fns::<SK, SV, GK>(group_of), steps),
            replay(m, steps),
            group_of,
        ),
    decreases steps.len(),
{
    if steps.len() > 0 {
        let rest = steps.drop_last();
        let fns = collect_fns::<SK, SV, GK>(group_of);
        collects_follow_source::<SK, SV, GK>(grouped, m, group_of, rest);
        let mid = grouped.run(fns, rest);
        let rows = replay(m, rest);
        match steps.last() {
            Change::Initial { entries } => {
                assert(entries.map_values(|e: (SK::Model, SV)| e.0) =~= entry_keys(entries));
                collects_load::<SK, SV, GK>(group_of, entries);
            },
            Change::Insert { key, value } => {
                collects_put::<SK, SV, GK>(mid, rows, group_of, key, value);
            },
            Change::Remove { key, old_value } => {
                assert(mid.member.contains_key(key));
                collects_drop::<SK, SV, GK>(mid, rows, group_of, key);
            },
            Change::Update { key, old_value, new_value } => {
                assert(mid.member.contains_key(key));
                let a = mid.old_group(fns, key, old_value);
                let b = group_of(key, new_value);
                if a == b {
                    collects_put::<SK, SV, GK>(mid, rows, group_of, key, new_value);
                } else {
                    collects_drop::<SK, SV, GK>(mid, rows, group_of, key);
                    assert(rows.remove(key).insert(key, new_value) =~= rows.insert(key, new_value));
                    collects_put::<SK, SV, GK>(
                        mid.left_by(fns, a, key, old_value),
                        rows.remove(key),
                        group_of,
                        key,
                        new_value,
                    );
                }
            },
        }
    }
}

proof fn collect_ops_fns<SK: OrderedKey, SV: CellValue, GK: MapKey, F: RowFn<SK, SV, GK>>(
    ops: CollectOps<F>,
)
    ensures
        group_fns::<SK, SV, GK, Vec<SV>, CollectOps<F>>(ops) == collect_fns::<SK, SV::Model, GK::Model>(
            group_of::<SK, SV, GK, F>(ops.group_key),
        ),
{
    let a = group_fns::<SK, SV, GK, Vec<SV>, CollectOps<F>>(ops);
    let b = collect_fns::<SK, SV::Model, GK::Model>(group_of::<SK, SV, GK, F>(ops.group_key));
    assert(a.group_of =~= b.group_of);
    assert(a.inserted =~= b.inserted);
    assert(a.updated =~= b.updated);
    assert(a.removed =~= b.removed);
    assert(a.materialized =~= b.materialized);
    assert(a.vacant =~= b.vacant);
}

/// A collecting runtime follows its source: where the changes that it follows tell the truth about a
/// map, its output is the values of the rows that the map has in each group, in the order of their
/// keys, and what it tells leads there.
pub proof fn group_by_follows_source<SK: OrderedKey, SV: CellValue, GK: MapKey, F: RowFn<SK, SV, GK>>(
    before: GroupedRuntime<SK, SV, GK, Vec<SV>, CollectOps<F>>,
    m: Map<SK::Model, SV::Model>,
    steps: Seq<Change<SK::Model, SV::Model>>,
    after: GroupedRuntime<SK, SV, GK, Vec<SV>, CollectOps<F>>,
    told: Seq<Change<GK::Model, Seq<SV::Model>>>,
)
    requires
        works_all::<SK, SV, GK, Vec<SV>, GroupedRuntime<SK, SV, GK, Vec<SV>, CollectOps<F>>>(
            before,
            steps,
            after,
            told,
        ),
        collects::<SK, SV::Model, GK::Model>(
            before.grouped(),
            m,
            group_of::<SK, SV, GK, F>(before.ops().group_key),
        ),
        fits_all(m, steps),
    ensures
        collects::<SK, SV::Model, GK::Model>(
            after.grouped(),
            replay(m, steps),
            group_of::<SK, SV, GK, F>(after.ops().group_key),
        ),
        forall|g: GK::Model|
            #![trigger lookup(after.output(), g)]
            lookup(after.output(), g) == (match lookup(after.grouped().groups, g) {
                Some(rows) => Some(row_values(rows)),
                None => None,
            }),
        fits_all(before.output(), told),
        replay(before.output(), told) == after.output(),
{
    let f = group_of::<SK, SV, GK, F>(before.ops().group_key);
    grouping_follows_source::<SK, SV, GK, Vec<SV>, CollectOps<F>>(before, steps, after, told);
    collect_ops_fns::<SK, SV, GK, F>(before.ops());
    collects_follow_source::<SK, SV::Model, GK::Model>(before.grouped(), m, f, steps);
}

/// What a group holds, from the beginning on: where the changes that a collecting runtime has followed
/// tell the truth, the group of a key has one value for each row that the source has in it, in the
/// ascending order of the rows' keys. It is there if and only if there is such a row, and what was
/// told from the beginning on leads to it.
pub proof fn group_of_source<SK: OrderedKey, SV: CellValue, GK: MapKey, F: RowFn<SK, SV, GK>>(
    before: GroupedRuntime<SK, SV, GK, Vec<SV>, CollectOps<F>>,
    steps: Seq<Change<SK::Model, SV::Model>>,
    after: GroupedRuntime<SK, SV, GK, Vec<SV>, CollectOps<F>>,
    told: Seq<Change<GK::Model, Seq<SV::Model>>>,
    g: GK::Model,
) -> (keys: Seq<SK::Model>)
    requires
        works_all::<SK, SV, GK, Vec<SV>, GroupedRuntime<SK, SV, GK, Vec<SV>, CollectOps<F>>>(
            before,
            steps,
            after,
            told,
        ),
        before.grouped() == no_groups::<SK::Model, GK::Model, Seq<(SK::Model, SV::Model)>>(),
        fits_all(Map::empty(), steps),
    ensures
        forall|k: SK::Model| #[trigger]
            keys.contains(k) <==> replay(Map::empty(), steps).contains_key(k)
                && before.ops().group_key.image(k, replay(Map::empty(), steps)[k]) == g,
        forall|i: int, j: int|
            0 <= i < j < keys.len() ==> SK::key_before(#[trigger] keys[i], #[trigger] keys[j]),
        after.output().contains_key(g) == (keys.len() > 0),
        keys.len() > 0 ==> after.output()[g].len() == keys.len(),
        keys.len() > 0 ==> forall|i: int|
            0 <= i < keys.len() ==> #[trigger] after.output()[g][i] == replay(Map::empty(), steps)[keys[i]],
        replay(Map::empty(), told) == after.output(),
        fits_all(Map::empty(), told),
{
    let none = Map::<SK::Model, SV::Model>::empty();
    let f = group_of::<SK, SV, GK, F>(before.ops().group_key);
    assert forall|x: GK::Model| #[trigger] group_rows(none, f, x) == none by {
        assert(group_rows(none, f, x) =~= none);
    }
    group_by_follows_source::<SK, SV, GK, F>(before, none, steps, after, told);
    grouping_follows_source::<SK, SV, GK, Vec<SV>, CollectOps<F>>(before, steps, after, told);
    assert(before.output() =~= Map::<GK::Model, Seq<SV::Model>>::empty());
    let m = replay(none, steps);
    let _ = lookup(after.output(), g);
    if after.grouped().groups.contains_key(g) {
        let rows = after.grouped().groups[g];
        let keys = entry_keys(rows);
        ordered_lookup::<SK, SV::Model>(rows);
        crate::join_region::declaration::values_in_place(rows);
        assert forall|k: SK::Model| #[trigger] keys.contains(k) <==> m.contains_key(k)
            && before.ops().group_key.image(k, m[k]) == g by {
            assert(group_rows(m, f, g).contains_key(k) <==> entries_map(rows).contains_key(k));
            if keys.contains(k) {
                let i = choose|i: int| 0 <= i < keys.len() && keys[i] == k;
                assert(rows[i].0 == k);
            }
            if entries_map(rows).contains_key(k) {
                let i = choose|i: int| 0 <= i < rows.len() && (#[trigger] rows[i]).0 == k;
                assert(keys[i] == k);
            }
        }
        assert forall|i: int, j: int| 0 <= i < j < keys.len() implies SK::key_before(
            #[trigger] keys[i],
            #[trigger] keys[j],
        ) by {
            assert(rows[i].0 == keys[i] && rows[j].0 == keys[j]);
        }
        assert forall|i: int| 0 <= i < keys.len() implies #[trigger] after.output()[g][i] == m[keys[i]] by {
            assert(lookup(entries_map(rows), rows[i].0) == Some(rows[i].1));
            assert(group_rows(m, f, g).contains_key(keys[i]));
        }
        keys
    } else {
        let keys = Seq::<SK::Model>::empty();
        assert forall|k: SK::Model| #[trigger] keys.contains(k) <==> m.contains_key(k)
            && before.ops().group_key.image(k, m[k]) == g by {
            assert(!group_rows(m, f, g).contains_key(k));
        }
        keys
    }
}

/// The values of the rows of each group that a function puts rows into, in the order of their keys.
pub struct GroupByPlan<S, K, V, GK, F> {
    pub source: S,
    pub group_key: F,
    pub types: PhantomData<(K, V, GK)>,
}

impl<
    S: MapQuery<Key = K, Value = V>,
    K: OrderedKey,
    V: CellValue,
    GK: MapKey,
    F: RowFn<K, V, GK>,
> PlanProperties for GroupByPlan<S, K, V, GK, F> {
    type Cardinality = Many;

    type InputPartition = S::OutputPartition;

    type OutputPartition = Repartition<GK>;
}

impl<
    S: MapQuery<Key = K, Value = V>,
    K: OrderedKey,
    V: CellValue,
    GK: MapKey,
    F: RowFn<K, V, GK>,
> MapQuery for GroupByPlan<S, K, V, GK, F> {
    type Key = GK;

    type Value = Vec<V>;

    open spec fn raw_source(&self) -> bool {
        false
    }

    fn is_raw_source(&self) -> (raw: bool)
        ensures
            !raw,
    {
        false
    }
}

impl<S, K: OrderedKey, V: CellValue, GK: MapKey, F: RowFn<K, V, GK>> GroupByPlan<S, K, V, GK, F> {
    /// The source, and the grouping to put behind it.
    pub fn build_into(self) -> (built: (
        S,
        DiffDriver<GroupedRuntime<K, V, GK, Vec<V>, CollectOps<F>>>,
    ))
        requires
            pure2::<K, V, GK, F>(self.group_key),
        ensures
            built.0 == self.source,
            built.1.state.wf(),
            built.1.state.ops() == (CollectOps { group_key: self.group_key }),
            built.1.state.grouped() == no_groups::<K::Model, GK::Model, Seq<(K::Model, V::Model)>>(),
    {
        (self.source, install_grouped_runtime_via_query(CollectOps { group_key: self.group_key }))
    }
}

/// Collecting rows by groups.
pub trait GroupByExt<K: OrderedKey, V: CellValue>: MapQuery<Key = K, Value = V> {
    /// The values of the rows of each group that a function puts rows into, in the order of their keys.
    fn group_by<GK: MapKey, F: Fn(&K, &V) -> GK + Send + Sync + 'static>(self, group_key: F) -> (plan: GroupByPlan<
        Self,
        K,
        V,
        GK,
        F,
    >)
        ensures
            plan.source == self,
            plan.group_key == group_key,
            row_closure::<K, V, GK, F>(group_key) ==> closure_known::<K, V, GK, F>(group_key),
    {
        proof {
            if row_closure::<K, V, GK, F>(group_key) {
                closure_laws::<K, V, GK, F>(group_key);
            }
        }
        GroupByPlan { source: self, group_key, types: PhantomData }
    }
}

impl<K: OrderedKey, V: CellValue, M: MapQuery<Key = K, Value = V>> GroupByExt<K, V> for M {

}

} // verus!
