//! Hash tables and hash codes from the `rustc_hash` crate.
use rustc_hash::{FxBuildHasher, FxHashMap, FxHashSet, FxHasher};
use std::hash::{Hash, Hasher};
use vstd::prelude::*;

use crate::value::{models, CellValue, MapKey};

verus! {

/// The stateless hasher builder behind [`FxMap`] and [`FxSet`].
#[verifier::external_type_specification]
#[verifier::external_body]
pub struct ExFxBuildHasher(rustc_hash::FxBuildHasher);

/// `s` holds each element of `set` once, and nothing else.
pub open spec fn lists<K>(s: Seq<K>, set: Set<K>) -> bool {
    &&& s.no_duplicates()
    &&& forall|k: K| s.contains(k) <==> set.contains(k)
}

/// What a map holds at a key.
pub open spec fn lookup<K, V>(m: Map<K, V>, k: K) -> Option<V> {
    if m.contains_key(k) {
        Some(m[k])
    } else {
        None
    }
}

/// A key as hash tables see it: two are equal where their models are, and one is hashed by its hash
/// code.
pub struct TableKey<K>(pub K);

impl<K: MapKey> PartialEq for TableKey<K> {
    fn eq(&self, other: &TableKey<K>) -> (same: bool) {
        self.0.equals(&other.0)
    }
}

impl<K: MapKey> vstd::std_specs::cmp::PartialEqSpecImpl for TableKey<K> {
    open spec fn obeys_eq_spec() -> bool {
        true
    }

    open spec fn eq_spec(&self, other: &TableKey<K>) -> bool {
        self.0.model() == other.0.model()
    }
}

impl<K: MapKey> Eq for TableKey<K> {

}

impl<K: MapKey> Hash for TableKey<K> {
    /// `Hasher::write_u64`: the hash code of the key, which its model and the target decide, goes to
    /// the hasher.
    #[verifier::external_body]
    fn hash<H: Hasher>(&self, state: &mut H) {
        state.write_u64(self.0.fx_hash(&FxState::new()));
    }
}

/// A hash map, seen as a map between the models of its keys and values.
#[verifier::reject_recursive_types(K)]
#[verifier::reject_recursive_types(V)]
pub struct FxMap<K: MapKey, V: CellValue> {
    table: FxHashMap<TableKey<K>, V>,
    contents: Ghost<Map<K::Model, V::Model>>,
}

impl<K: MapKey, V: CellValue> View for FxMap<K, V> {
    type V = Map<K::Model, V::Model>;

    closed spec fn view(&self) -> Map<K::Model, V::Model> {
        self.contents@
    }
}

impl<K: MapKey, V: CellValue> FxMap<K, V> {
    /// `FxHashMap::default`: the new table is empty.
    #[verifier::external_body]
    pub(crate) fn new() -> (map: FxMap<K, V>)
        ensures
            (map@ == Map::<K::Model, V::Model>::empty()),
    {
        FxMap { table: FxHashMap::default(), contents: Ghost(Map::empty()) }
    }

    /// `HashMap::insert`: the key then holds the value; what it held before comes back.
    #[verifier::external_body]
    pub(crate) fn insert(&mut self, key: K, value: V) -> (before: Option<V>)
        ensures
            final(self)@ == old(self)@.insert(key.model(), value.model()),
            before.model() == lookup(old(self)@, key.model()),
    {
        self.table.insert(TableKey(key), value)
    }

    /// `HashMap::remove`: the key then holds nothing; what it held before comes back.
    #[verifier::external_body]
    pub(crate) fn remove(&mut self, key: &K) -> (before: Option<V>)
        ensures
            final(self)@ == old(self)@.remove(key.model()),
            before.model() == lookup(old(self)@, key.model()),
    {
        self.table.remove(&TableKey(key.clone_value()))
    }

    /// `HashMap::get`: what the key holds.
    #[verifier::external_body]
    pub(crate) fn get(&self, key: &K) -> (value: Option<&V>)
        ensures
            value is Some == self@.contains_key(key.model()),
            value is Some ==> value->Some_0.model() == self@[key.model()],
    {
        self.table.get(&TableKey(key.clone_value()))
    }

    /// `HashMap::contains_key`: whether the key holds a value.
    #[verifier::external_body]
    pub(crate) fn contains_key(&self, key: &K) -> (held: bool)
        ensures
            held == self@.contains_key(key.model()),
    {
        self.table.contains_key(&TableKey(key.clone_value()))
    }

    /// `HashMap::keys`: each key once, in an order that nothing is said of.
    #[verifier::external_body]
    pub(crate) fn keys(&self) -> (keys: Vec<K>)
        ensures
            lists(models(keys@), self@.dom()),
    {
        self.table.keys().map(|key| key.0.clone_value()).collect()
    }

    /// `HashMap::clear`: the table is then empty.
    #[verifier::external_body]
    pub(crate) fn clear(&mut self)
        ensures
            (final(self)@ == Map::<K::Model, V::Model>::empty()),
    {
        self.table.clear()
    }
}

/// A hash set, seen as the set of the models of its elements.
#[verifier::reject_recursive_types(T)]
pub struct FxSet<T: MapKey> {
    table: FxHashSet<TableKey<T>>,
    contents: Ghost<Set<T::Model>>,
}

impl<T: MapKey> View for FxSet<T> {
    type V = Set<T::Model>;

    closed spec fn view(&self) -> Set<T::Model> {
        self.contents@
    }
}

impl<T: MapKey> FxSet<T> {
    /// `FxHashSet::default`: the new set is empty.
    #[verifier::external_body]
    pub(crate) fn new() -> (set: FxSet<T>)
        ensures
            (set@ == Set::<T::Model>::empty()),
    {
        FxSet { table: FxHashSet::default(), contents: Ghost(Set::empty()) }
    }

    /// `HashSet::insert`: the element is then in the set; tells whether it is new.
    #[verifier::external_body]
    pub(crate) fn insert(&mut self, value: T) -> (added: bool)
        ensures
            final(self)@ == old(self)@.insert(value.model()),
            added == !old(self)@.contains(value.model()),
    {
        self.table.insert(TableKey(value))
    }

    /// `HashSet::remove`: the element is then not in the set; tells whether it was.
    #[verifier::external_body]
    pub(crate) fn remove(&mut self, value: &T) -> (removed: bool)
        ensures
            final(self)@ == old(self)@.remove(value.model()),
            removed == old(self)@.contains(value.model()),
    {
        self.table.remove(&TableKey(value.clone_value()))
    }

    /// `HashSet::contains`: whether the element is in the set.
    #[verifier::external_body]
    pub(crate) fn contains(&self, value: &T) -> (held: bool)
        ensures
            held == self@.contains(value.model()),
    {
        self.table.contains(&TableKey(value.clone_value()))
    }

    /// `HashSet::clear`: the set is then empty.
    #[verifier::external_body]
    pub(crate) fn clear(&mut self)
        ensures
            (final(self)@ == Set::<T::Model>::empty()),
    {
        self.table.clear()
    }
}

/// What a hasher has come to: its state, and how the target that it was built for mixes bytes, by the
/// full product of two words (`wide`) or by products of their halves.
pub struct FxSum {
    pub state: int,
    pub wide: bool,
}

/// What a machine word makes of the state of an `FxHasher`: both are added up and multiplied by a
/// constant, within the width of a machine word.
pub open spec fn fx_add(sum: FxSum, word: int) -> FxSum {
    FxSum {
        state: if usize::BITS == 64 {
            ((sum.state + word) * 0xf135_7aea_2e62_a9c5) % 0x1_0000_0000_0000_0000
        } else {
            ((sum.state + word) * 0x93d7_65dd) % 0x1_0000_0000
        },
        wide: sum.wide,
    }
}

/// What a word of 64 bits makes of the state: on a narrower machine its low half, then its high half.
pub open spec fn fx_add_word(sum: FxSum, word: int) -> FxSum {
    if usize::BITS == 64 {
        fx_add(sum, word)
    } else {
        fx_add(fx_add(sum, word % 0x1_0000_0000), word / 0x1_0000_0000)
    }
}

/// The word that an `FxHasher` makes of bytes, with a target that mixes by the full product of two
/// words or by products of their halves.
pub uninterp spec fn fx_bytes(wide: bool, bytes: Seq<u8>) -> u64;

/// What bytes make of the state: the word that they are mixed into goes into it.
pub open spec fn fx_add_bytes(sum: FxSum, bytes: Seq<u8>) -> FxSum {
    fx_add_word(sum, fx_bytes(sum.wide, bytes) as int)
}

/// The hash code for a state: its bits, rotated to the left by 26 places, or by 15 on a narrower
/// machine.
pub open spec fn fx_finished(sum: FxSum) -> int {
    if usize::BITS == 64 {
        (sum.state * 0x400_0000) % 0x1_0000_0000_0000_0000 + sum.state / 0x40_0000_0000
    } else {
        (sum.state * 0x8000) % 0x1_0000_0000 + sum.state / 0x2_0000
    }
}

/// The hash code of a key with this model, by a hasher that begins with this state.
pub open spec fn fx_code<K: MapKey>(start: FxSum, model: K::Model) -> int {
    fx_finished(K::hashed(model, start))
}

/// The hasher of hash codes.
#[verifier::external_type_specification]
#[verifier::external_body]
pub struct ExFxHasher(rustc_hash::FxHasher);

/// A hasher, seen as what it has come to.
pub struct FxState {
    hasher: FxHasher,
    sum: Ghost<FxSum>,
}

impl View for FxState {
    type V = FxSum;

    closed spec fn view(&self) -> FxSum {
        self.sum@
    }
}

impl Default for FxState {
    /// A hasher that has been fed nothing.
    fn default() -> (hasher: FxState)
        ensures
            hasher@.state == 0,
    {
        FxState::new()
    }
}

impl FxState {
    /// `FxHasher::default`: the state is nought. How the target mixes bytes is not said.
    #[verifier::external_body]
    pub(crate) fn new() -> (hasher: FxState)
        ensures
            hasher@.state == 0,
    {
        FxState { hasher: FxHasher::default(), sum: Ghost(arbitrary()) }
    }

    /// `FxHasher::clone`: a hasher with the same state, for the same target.
    #[verifier::external_body]
    pub(crate) fn copy(&self) -> (copy: FxState)
        ensures
            copy@ == self@,
    {
        FxState { hasher: self.hasher.clone(), sum: self.sum }
    }

    /// `FxHasher::write_usize`: the machine word goes into the state.
    #[verifier::external_body]
    pub(crate) fn write_size(&mut self, word: usize)
        ensures
            final(self)@ == fx_add(old(self)@, word as int),
    {
        self.hasher.write_usize(word)
    }

    /// `FxHasher::write_u64`: the word goes into the state.
    #[verifier::external_body]
    pub(crate) fn write_word(&mut self, word: u64)
        ensures
            final(self)@ == fx_add_word(old(self)@, word as int),
    {
        self.hasher.write_u64(word)
    }

    /// `FxHasher::write`: the bytes are mixed into one word, which they and the target's way of mixing
    /// decide, and the word goes into the state.
    #[verifier::external_body]
    pub(crate) fn write_bytes(&mut self, bytes: &[u8])
        ensures
            final(self)@ == fx_add_word(old(self)@, fx_bytes(old(self)@.wide, bytes@) as int),
    {
        self.hasher.write(bytes)
    }

    /// `FxHasher::finish`: the hash code for the state.
    #[verifier::external_body]
    pub(crate) fn finish(&self) -> (code: u64)
        ensures
            code == fx_finished(self@),
    {
        self.hasher.finish()
    }
}

} // verus!
