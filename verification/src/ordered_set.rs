//! A set that remembers the order in which its elements came.
use vstd::prelude::*;

use crate::fx::FxSet;
use crate::index::{without, without_contains};
use crate::value::{models, models_push, MapKey};

verus! {

/// A sequence with an element put at its end, unless the element is in it.
pub open spec fn push_new<T>(s: Seq<T>, x: T) -> Seq<T> {
    if s.contains(x) {
        s
    } else {
        s.push(x)
    }
}

/// A sequence with each of several elements put at its end in turn, unless it is in it.
pub open spec fn extend_new<T>(s: Seq<T>, xs: Seq<T>) -> Seq<T>
    decreases xs.len(),
{
    if xs.len() == 0 {
        s
    } else {
        push_new(extend_new(s, xs.drop_last()), xs.last())
    }
}

pub proof fn push_new_contains<T>(s: Seq<T>, x: T)
    requires
        s.no_duplicates(),
    ensures
        push_new(s, x).no_duplicates(),
        forall|y: T| push_new(s, x).contains(y) <==> s.contains(y) || y == x,
{
    if !s.contains(x) {
        assert forall|y: T| s.push(x).contains(y) <==> s.contains(y) || y == x by {
            if s.contains(y) {
                let i = choose|i: int| 0 <= i < s.len() && s[i] == y;
                assert(s.push(x)[i] == y);
            }
            if y == x {
                assert(s.push(x)[s.len() as int] == y);
            }
        }
    }
}

/// The elements put at the end are there afterwards, and those before stay.
pub proof fn extend_new_contains<T>(s: Seq<T>, xs: Seq<T>)
    requires
        s.no_duplicates(),
    ensures
        extend_new(s, xs).no_duplicates(),
        forall|y: T| extend_new(s, xs).contains(y) <==> s.contains(y) || xs.contains(y),
    decreases xs.len(),
{
    if xs.len() > 0 {
        let rest = xs.drop_last();
        extend_new_contains(s, rest);
        push_new_contains(extend_new(s, rest), xs.last());
        assert forall|y: T| xs.contains(y) <==> rest.contains(y) || y == xs.last() by {
            if xs.contains(y) {
                let i = choose|i: int| 0 <= i < xs.len() && xs[i] == y;
                if i < xs.len() - 1 {
                    assert(rest[i] == y);
                }
            }
            if rest.contains(y) {
                let i = choose|i: int| 0 <= i < rest.len() && rest[i] == y;
                assert(xs[i] == y);
            }
            if y == xs.last() {
                assert(xs[xs.len() - 1] == y);
            }
        }
    }
}

pub proof fn extend_new_concat<T>(s: Seq<T>, a: Seq<T>, b: Seq<T>)
    ensures
        extend_new(s, a + b) == extend_new(extend_new(s, a), b),
    decreases b.len(),
{
    if b.len() == 0 {
        assert(a + b =~= a);
    } else {
        assert((a + b).drop_last() =~= a + b.drop_last());
        extend_new_concat(s, a, b.drop_last());
    }
}

/// The elements of a sequence that a set holds.
pub open spec fn kept<T>(s: Seq<T>, keep: Set<T>) -> Seq<T>
    decreases s.len(),
{
    if s.len() == 0 {
        Seq::empty()
    } else if keep.contains(s.last()) {
        kept(s.drop_last(), keep).push(s.last())
    } else {
        kept(s.drop_last(), keep)
    }
}

/// Keeping picks out the elements of the set and keeps distinct elements distinct.
pub proof fn kept_contains<T>(s: Seq<T>, keep: Set<T>)
    ensures
        forall|y: T| kept(s, keep).contains(y) <==> s.contains(y) && keep.contains(y),
        s.no_duplicates() ==> kept(s, keep).no_duplicates(),
        kept(s, keep).len() <= s.len(),
    decreases s.len(),
{
    if s.len() > 0 {
        let rest = s.drop_last();
        kept_contains(rest, keep);
        assert forall|y: T| kept(s, keep).contains(y) <==> s.contains(y) && keep.contains(y) by {
            assert(s.contains(y) <==> rest.contains(y) || y == s.last()) by {
                if s.contains(y) {
                    let i = choose|i: int| 0 <= i < s.len() && s[i] == y;
                    if i < s.len() - 1 {
                        assert(rest[i] == y);
                    }
                }
                if rest.contains(y) {
                    let i = choose|i: int| 0 <= i < rest.len() && rest[i] == y;
                    assert(s[i] == y);
                }
                if y == s.last() {
                    assert(s[s.len() - 1] == y);
                }
            }
            if keep.contains(s.last()) {
                let k = kept(rest, keep);
                if k.contains(y) {
                    let i = choose|i: int| 0 <= i < k.len() && k[i] == y;
                    assert(k.push(s.last())[i] == y);
                }
                if y == s.last() {
                    assert(k.push(s.last())[k.len() as int] == y);
                }
            }
        }
        if s.no_duplicates() {
            assert(!rest.contains(s.last()));
        }
    }
}

/// A set that remembers the order in which its elements came.
#[verifier::reject_recursive_types(T)]
pub struct OrderedSet<T: MapKey> {
    seen: FxSet<T>,
    values: Vec<T>,
}

impl<T: MapKey> View for OrderedSet<T> {
    type V = Seq<T::Model>;

    /// The elements in the order in which they came.
    closed spec fn view(&self) -> Seq<T::Model> {
        models(self.values@)
    }
}

impl<T: MapKey> OrderedSet<T> {
    /// Each element stands in the order once.
    pub closed spec fn wf(&self) -> bool {
        &&& models(self.values@).no_duplicates()
        &&& forall|x: T::Model| self.seen@.contains(x) <==> models(self.values@).contains(x)
    }

    pub proof fn distinct(&self)
        requires
            self.wf(),
        ensures
            self@.no_duplicates(),
    {
    }

    pub fn new() -> (set: OrderedSet<T>)
        ensures
            set.wf(),
            set@ == Seq::<T::Model>::empty(),
    {
        let set = OrderedSet { seen: FxSet::new(), values: Vec::new() };
        assert(models(set.values@) =~= Seq::<T::Model>::empty());
        set
    }

    /// Puts an element at the end, unless it is in the set; tells whether it was new.
    pub fn insert(&mut self, value: T) -> (added: bool)
        requires
            old(self).wf(),
        ensures
            final(self).wf(),
            final(self)@ == push_new(old(self)@, value.model()),
            added == !old(self)@.contains(value.model()),
    {
        proof {
            push_new_contains(self@, value.model());
        }
        if self.seen.insert(value.clone_value()) {
            proof {
                models_push(self.values@, value);
            }
            self.values.push(value);
            true
        } else {
            false
        }
    }

    /// Puts each value at the end in turn, unless it is in the set.
    pub fn extend(&mut self, values: &Vec<T>)
        requires
            old(self).wf(),
        ensures
            final(self).wf(),
            final(self)@ == extend_new(old(self)@, models(values@)),
    {
        let mut i: usize = 0;
        assert(models(values@).take(0) =~= Seq::empty());
        while i < values.len()
            invariant
                i <= values@.len(),
                self.wf(),
                self@ == extend_new(old(self)@, models(values@).take(i as int)),
            decreases values@.len() - i,
        {
            self.insert(values[i].clone_value());
            proof {
                assert(models(values@).take(i + 1).drop_last() =~= models(values@).take(i as int));
            }
            i += 1;
        }
        assert(models(values@).take(i as int) =~= models(values@));
    }

    /// Takes the elements out in order.
    pub fn drain(&mut self) -> (values: Vec<T>)
        requires
            old(self).wf(),
        ensures
            final(self).wf(),
            final(self)@ == Seq::<T::Model>::empty(),
            models(values@) == old(self)@,
    {
        let mut values: Vec<T> = Vec::new();
        values.append(&mut self.values);
        self.seen.clear();
        assert(self@ =~= Seq::<T::Model>::empty());
        assert(values@ =~= old(self).values@);
        values
    }

    /// Moves the elements to the end of `out` in order.
    pub fn move_into(&mut self, out: &mut Vec<T>)
        requires
            old(self).wf(),
        ensures
            final(self).wf(),
            final(self)@ == Seq::<T::Model>::empty(),
            models(final(out)@) == models(old(out)@) + old(self)@,
    {
        let mut values = self.drain();
        proof {
            crate::value::models_concat(out@, values@);
        }
        out.append(&mut values);
    }

    /// Takes an element out, and tells whether it was there.
    pub fn remove(&mut self, value: &T) -> (removed: bool)
        requires
            old(self).wf(),
        ensures
            final(self).wf(),
            final(self)@ == without(old(self)@, value.model()),
            removed == old(self)@.contains(value.model()),
    {
        let ghost all = self@;
        let ghost x = value.model();
        if !self.seen.remove(value) {
            proof {
                without_contains(all, x);
                assert(self.seen@ =~= old(self).seen@);
            }
            return false;
        }
        let mut values: Vec<T> = Vec::new();
        values.append(&mut self.values);
        let mut i: usize = 0;
        proof {
            assert(values@ =~= old(self).values@);
            assert(all.take(0) =~= Seq::empty());
            assert(models(self.values@) =~= without(all.take(0), x));
        }
        while i < values.len()
            invariant
                i <= values@.len(),
                all == models(values@),
                x == value.model(),
                models(self.values@) == without(all.take(i as int), x),
                self.seen@ == old(self).seen@.remove(x),
            decreases values@.len() - i,
        {
            proof {
                assert(all.take(i + 1).drop_last() =~= all.take(i as int));
                assert(all.take(i + 1).last() == values@[i as int].model());
            }
            if !values[i].equals(value) {
                let copy = values[i].clone_value();
                proof {
                    models_push(self.values@, copy);
                }
                self.values.push(copy);
            }
            i += 1;
        }
        proof {
            assert(all.take(i as int) =~= all);
            without_contains(all, x);
        }
        true
    }

    pub fn clear(&mut self)
        ensures
            final(self).wf(),
            final(self)@ == Seq::<T::Model>::empty(),
    {
        self.values.clear();
        self.seen.clear();
        assert(self@ =~= Seq::<T::Model>::empty());
    }

    pub fn contains(&self, value: &T) -> (held: bool)
        requires
            self.wf(),
        ensures
            held == self@.contains(value.model()),
    {
        self.seen.contains(value)
    }

    /// The elements in order.
    pub fn iter(&self) -> (values: &Vec<T>)
        ensures
            models(values@) == self@,
    {
        &self.values
    }

    pub fn is_empty(&self) -> (empty: bool)
        ensures
            empty == (self@.len() == 0),
    {
        self.values.len() == 0
    }

    /// Keeps the elements that `keep` accepts, in their order.
    pub fn retain<F: Fn(&T) -> bool>(&mut self, keep: F, Ghost(held): Ghost<Set<T::Model>>)
        requires
            old(self).wf(),
            forall|x: T| #[trigger] call_requires(keep, (&x,)),
            forall|x: T, b: bool| #[trigger]
                call_ensures(keep, (&x,), b) ==> b == held.contains(x.model()),
        ensures
            final(self).wf(),
            final(self)@ == kept(old(self)@, held),
    {
        let mut values: Vec<T> = Vec::new();
        let mut next: Vec<T> = Vec::new();
        values.append(&mut self.values);
        self.seen.clear();
        let mut i: usize = 0;
        let ghost all = models(values@);
        proof {
            assert(values@ =~= old(self).values@);
            assert(all.take(0) =~= Seq::empty());
            assert(models(self.values@) =~= Seq::empty());
        }
        while i < values.len()
            invariant
                i <= values@.len(),
                all == models(values@),
                all.no_duplicates(),
                self.wf(),
                self@ == kept(all.take(i as int), held),
                forall|x: T| #[trigger] call_requires(keep, (&x,)),
                forall|x: T, b: bool| #[trigger]
                    call_ensures(keep, (&x,), b) ==> b == held.contains(x.model()),
            decreases values@.len() - i,
        {
            let ghost x = all[i as int];
            proof {
                assert(all.take(i + 1).drop_last() =~= all.take(i as int));
                assert(all.take(i + 1).last() == x);
                kept_contains(all.take(i as int), held);
                assert(!all.take(i as int).contains(x));
            }
            if keep(&values[i]) {
                self.insert(values[i].clone_value());
            }
            i += 1;
        }
        assert(all.take(i as int) =~= all);
    }
}

} // verus!
