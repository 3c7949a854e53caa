//! Row values and map keys, and the mathematical values they stand for.
use std::hash::Hash;
use vstd::prelude::*;
use vstd::utf8::encode_utf8;

use crate::fx::{fx_add, fx_add_bytes, fx_add_word, fx_finished, FxState, FxSum};

verus! {

/// A value that a row of a map can hold.
///
/// Two values are interchangeable when their models agree. Copying a value keeps its
/// model, and comparing two values compares their models.
pub trait CellValue: Send + Sync + Sized + 'static {
    /// The mathematical value that a value of this type stands for.
    type Model: Send + Sync;

    spec fn model(&self) -> Self::Model;

    fn clone_value(&self) -> (copy: Self)
        ensures
            copy.model() == self.model(),
    ;

    fn equals(&self, other: &Self) -> (same: bool)
        ensures
            same == (self.model() == other.model()),
    ;
}

/// A value that can key a map: its model decides what it makes of a hasher.
pub trait MapKey: CellValue + Hash + Eq {
    /// What a key with this model makes of what a hasher has come to.
    spec fn hashed(model: Self::Model, sum: FxSum) -> FxSum;

    /// Feeds the key to a hasher.
    fn hash_into(&self, hasher: &mut FxState)
        ensures
            final(hasher)@ == Self::hashed(self.model(), old(hasher)@),
    ;

    /// The hash code of the key, by a copy of a hasher.
    fn fx_hash(&self, start: &FxState) -> (code: u64)
        ensures
            code == fx_finished(Self::hashed(self.model(), start@)),
    {
        let mut hasher = start.copy();
        self.hash_into(&mut hasher);
        hasher.finish()
    }
}

/// The models of a sequence of values.
pub open spec fn models<T: CellValue>(s: Seq<T>) -> Seq<T::Model> {
    s.map_values(|x: T| x.model())
}

pub proof fn models_push<T: CellValue>(s: Seq<T>, x: T)
    ensures
        models(s.push(x)) == models(s).push(x.model()),
{
    assert(models(s.push(x)) =~= models(s).push(x.model()));
}

pub proof fn models_concat<T: CellValue>(s: Seq<T>, t: Seq<T>)
    ensures
        models(s + t) == models(s) + models(t),
{
    assert(models(s + t) =~= models(s) + models(t));
}

/// Copies a sequence of values.
pub fn clone_values<T: CellValue>(values: &Vec<T>) -> (copy: Vec<T>)
    ensures
        models(copy@) == models(values@),
        copy@.len() == values@.len(),
        forall|i: int|
            0 <= i < values@.len() ==> (#[trigger] copy@[i]).model() == values@[i].model(),
{
    let mut copy: Vec<T> = Vec::new();
    let mut i: usize = 0;
    while i < values.len()
        invariant
            i <= values@.len(),
            copy@.len() == i,
            forall|j: int| 0 <= j < i ==> (#[trigger] copy@[j]).model() == values@[j].model(),
        decreases values@.len() - i,
    {
        copy.push(values[i].clone_value());
        i += 1;
    }
    assert(models(copy@) =~= models(values@));
    copy
}

impl CellValue for u32 {
    type Model = u32;

    open spec fn model(&self) -> u32 {
        *self
    }

    fn clone_value(&self) -> (copy: u32)
        ensures
            copy == *self,
    {
        *self
    }

    fn equals(&self, other: &u32) -> (same: bool)
        ensures
            same == (*self == *other),
    {
        *self == *other
    }
}

impl MapKey for u32 {
    open spec fn hashed(model: u32, sum: FxSum) -> FxSum {
        fx_add(sum, model as int)
    }

    fn hash_into(&self, hasher: &mut FxState) {
        hasher.write_size(*self as usize)
    }
}

impl CellValue for u64 {
    type Model = u64;

    open spec fn model(&self) -> u64 {
        *self
    }

    fn clone_value(&self) -> (copy: u64)
        ensures
            copy == *self,
    {
        *self
    }

    fn equals(&self, other: &u64) -> (same: bool)
        ensures
            same == (*self == *other),
    {
        *self == *other
    }
}

impl MapKey for u64 {
    open spec fn hashed(model: u64, sum: FxSum) -> FxSum {
        fx_add_word(sum, model as int)
    }

    fn hash_into(&self, hasher: &mut FxState) {
        hasher.write_word(*self)
    }
}

impl CellValue for u128 {
    type Model = u128;

    open spec fn model(&self) -> u128 {
        *self
    }

    fn clone_value(&self) -> (copy: u128)
        ensures
            copy == *self,
    {
        *self
    }

    fn equals(&self, other: &u128) -> (same: bool)
        ensures
            same == (*self == *other),
    {
        *self == *other
    }
}

impl MapKey for u128 {
    open spec fn hashed(model: u128, sum: FxSum) -> FxSum {
        fx_add_word(fx_add_word(sum, model as u64 as int), (model >> 64) as u64 as int)
    }

    #[verifier::truncate]
    fn hash_into(&self, hasher: &mut FxState) {
        hasher.write_word(*self as u64);
        hasher.write_word((*self >> 64) as u64)
    }
}

impl CellValue for usize {
    type Model = usize;

    open spec fn model(&self) -> usize {
        *self
    }

    fn clone_value(&self) -> (copy: usize)
        ensures
            copy == *self,
    {
        *self
    }

    fn equals(&self, other: &usize) -> (same: bool)
        ensures
            same == (*self == *other),
    {
        *self == *other
    }
}

impl MapKey for usize {
    open spec fn hashed(model: usize, sum: FxSum) -> FxSum {
        fx_add(sum, model as int)
    }

    fn hash_into(&self, hasher: &mut FxState) {
        hasher.write_size(*self)
    }
}

impl CellValue for i32 {
    type Model = i32;

    open spec fn model(&self) -> i32 {
        *self
    }

    fn clone_value(&self) -> (copy: i32)
        ensures
            copy == *self,
    {
        *self
    }

    fn equals(&self, other: &i32) -> (same: bool)
        ensures
            same == (*self == *other),
    {
        *self == *other
    }
}

impl MapKey for i32 {
    open spec fn hashed(model: i32, sum: FxSum) -> FxSum {
        fx_add(sum, model as u32 as int)
    }

    #[verifier::truncate]
    fn hash_into(&self, hasher: &mut FxState) {
        hasher.write_size(*self as u32 as usize)
    }
}

impl CellValue for i64 {
    type Model = i64;

    open spec fn model(&self) -> i64 {
        *self
    }

    fn clone_value(&self) -> (copy: i64)
        ensures
            copy == *self,
    {
        *self
    }

    fn equals(&self, other: &i64) -> (same: bool)
        ensures
            same == (*self == *other),
    {
        *self == *other
    }
}

impl MapKey for i64 {
    open spec fn hashed(model: i64, sum: FxSum) -> FxSum {
        fx_add_word(sum, model as u64 as int)
    }

    #[verifier::truncate]
    fn hash_into(&self, hasher: &mut FxState) {
        hasher.write_word(*self as u64)
    }
}

impl CellValue for bool {
    type Model = bool;

    open spec fn model(&self) -> bool {
        *self
    }

    fn clone_value(&self) -> (copy: bool)
        ensures
            copy == *self,
    {
        *self
    }

    fn equals(&self, other: &bool) -> (same: bool)
        ensures
            same == (*self == *other),
    {
        *self == *other
    }
}

impl MapKey for bool {
    open spec fn hashed(model: bool, sum: FxSum) -> FxSum {
        fx_add(sum, if model {
            1
        } else {
            0
        })
    }

    fn hash_into(&self, hasher: &mut FxState) {
        hasher.write_size(if *self {
            1
        } else {
            0
        })
    }
}

impl CellValue for () {
    type Model = ();

    open spec fn model(&self) -> () {
        ()
    }

    fn clone_value(&self) -> (copy: ()) {
        ()
    }

    fn equals(&self, other: &()) -> (same: bool) {
        true
    }
}

impl CellValue for String {
    type Model = Seq<char>;

    open spec fn model(&self) -> Seq<char> {
        self@
    }

    fn clone_value(&self) -> (copy: String)
        ensures
            copy@ == self@,
    {
        self.clone()
    }

    fn equals(&self, other: &String) -> (same: bool)
        ensures
            same == (self@ == other@),
    {
        self.eq(other)
    }
}

/// What a text makes of what a hasher has come to: its bytes, then an end mark.
pub open spec fn text_hashed(text: Seq<char>, sum: FxSum) -> FxSum {
    fx_add(fx_add_bytes(sum, encode_utf8(text)), 0xff)
}

fn hash_text(text: &str, hasher: &mut FxState)
    ensures
        final(hasher)@ == text_hashed(text@, old(hasher)@),
{
    hasher.write_bytes(text.as_bytes());
    hasher.write_size(0xff)
}

impl MapKey for String {
    open spec fn hashed(model: Seq<char>, sum: FxSum) -> FxSum {
        text_hashed(model, sum)
    }

    fn hash_into(&self, hasher: &mut FxState) {
        hash_text(self.as_str(), hasher)
    }
}

impl CellValue for &'static str {
    type Model = Seq<char>;

    open spec fn model(&self) -> Seq<char> {
        self@
    }

    fn clone_value(&self) -> (copy: &'static str)
        ensures
            copy@ == self@,
    {
        *self
    }

    fn equals(&self, other: &&'static str) -> (same: bool)
        ensures
            same == (self@ == other@),
    {
        String::from_str(self).eq(&String::from_str(other))
    }
}

impl MapKey for &'static str {
    open spec fn hashed(model: Seq<char>, sum: FxSum) -> FxSum {
        text_hashed(model, sum)
    }

    fn hash_into(&self, hasher: &mut FxState) {
        hash_text(self, hasher)
    }
}

impl<A: CellValue, B: CellValue> CellValue for (A, B) {
    type Model = (A::Model, B::Model);

    open spec fn model(&self) -> (A::Model, B::Model) {
        (self.0.model(), self.1.model())
    }

    fn clone_value(&self) -> (copy: (A, B))
        ensures
            copy.0.model() == self.0.model(),
            copy.1.model() == self.1.model(),
    {
        (self.0.clone_value(), self.1.clone_value())
    }

    fn equals(&self, other: &(A, B)) -> (same: bool)
        ensures
            same == (self.0.model() == other.0.model() && self.1.model() == other.1.model()),
    {
        self.0.equals(&other.0) && self.1.equals(&other.1)
    }
}

impl<A: MapKey, B: MapKey> MapKey for (A, B) {
    open spec fn hashed(model: (A::Model, B::Model), sum: FxSum) -> FxSum {
        B::hashed(model.1, A::hashed(model.0, sum))
    }

    fn hash_into(&self, hasher: &mut FxState) {
        self.0.hash_into(hasher);
        self.1.hash_into(hasher)
    }
}

impl<A: CellValue, B: CellValue, C: CellValue> CellValue for (A, B, C) {
    type Model = (A::Model, B::Model, C::Model);

    open spec fn model(&self) -> (A::Model, B::Model, C::Model) {
        (self.0.model(), self.1.model(), self.2.model())
    }

    fn clone_value(&self) -> (copy: (A, B, C))
        ensures
            copy.0.model() == self.0.model(),
            copy.1.model() == self.1.model(),
            copy.2.model() == self.2.model(),
    {
        (self.0.clone_value(), self.1.clone_value(), self.2.clone_value())
    }

    fn equals(&self, other: &(A, B, C)) -> (same: bool)
        ensures
            same == (self.0.model() == other.0.model() && self.1.model() == other.1.model()
                && self.2.model() == other.2.model()),
    {
        self.0.equals(&other.0) && self.1.equals(&other.1) && self.2.equals(&other.2)
    }
}

impl<A: CellValue> CellValue for Option<A> {
    type Model = Option<A::Model>;

    open spec fn model(&self) -> Option<A::Model> {
        match self {
            Some(a) => Some(a.model()),
            None => None,
        }
    }

    fn clone_value(&self) -> (copy: Option<A>)
        ensures
            copy is Some == self is Some,
            self is Some ==> copy->Some_0.model() == self->Some_0.model(),
    {
        match self {
            Some(a) => Some(a.clone_value()),
            None => None,
        }
    }

    fn equals(&self, other: &Option<A>) -> (same: bool)
        ensures
            same == (self is Some == other is Some && (self is Some ==> self->Some_0.model()
                == other->Some_0.model())),
    {
        match (self, other) {
            (Some(a), Some(b)) => a.equals(b),
            (None, None) => true,
            _ => false,
        }
    }
}

impl<A: MapKey> MapKey for Option<A> {
    open spec fn hashed(model: Option<A::Model>, sum: FxSum) -> FxSum {
        match model {
            Some(a) => A::hashed(a, fx_add(sum, 1)),
            None => fx_add(sum, 0),
        }
    }

    fn hash_into(&self, hasher: &mut FxState) {
        match self {
            Some(a) => {
                hasher.write_size(1);
                a.hash_into(hasher)
            },
            None => hasher.write_size(0),
        }
    }
}

impl<A: CellValue> CellValue for Vec<A> {
    type Model = Seq<A::Model>;

    open spec fn model(&self) -> Seq<A::Model> {
        models(self@)
    }

    fn clone_value(&self) -> (copy: Vec<A>)
        ensures
            copy@.len() == self@.len(),
            forall|i: int|
                0 <= i < self@.len() ==> (#[trigger] copy@[i]).model() == self@[i].model(),
    {
        clone_values(self)
    }

    fn equals(&self, other: &Vec<A>) -> (same: bool)
        ensures
            same ==> self@.len() == other@.len() && forall|i: int|
                0 <= i < self@.len() ==> (#[trigger] self@[i]).model() == other@[i].model(),
            !same ==> self@.len() != other@.len() || exists|i: int|
                0 <= i < self@.len() && (#[trigger] self@[i]).model() != other@[i].model(),
    {
        if self.len() != other.len() {
            assert(models(self@).len() != models(other@).len());
            return false;
        }
        let mut i: usize = 0;
        while i < self.len()
            invariant
                i <= self@.len(),
                self@.len() == other@.len(),
                forall|j: int| 0 <= j < i ==> (#[trigger] self@[j]).model() == other@[j].model(),
            decreases self@.len() - i,
        {
            if !self[i].equals(&other[i]) {
                proof {
                    assert(models(self@)[i as int] != models(other@)[i as int]);
                }
                return false;
            }
            i += 1;
        }
        assert(models(self@) =~= models(other@));
        true
    }
}

/// What keys feed to a hasher: a number itself, a truth value as one or nought, a text its bytes and an
/// end mark, a pair its first half and then its second, and an optional key a mark that says whether
/// it is there and then the key.
pub proof fn what_keys_feed_to_a_hasher<A: MapKey, B: MapKey>(
    sum: FxSum,
    a: A::Model,
    b: B::Model,
    word: u64,
    number: u32,
    size: usize,
    long: u128,
    flag: bool,
    text: Seq<char>,
)
    ensures
        <u32 as MapKey>::hashed(number, sum) == fx_add(sum, number as int),
        <usize as MapKey>::hashed(size, sum) == fx_add(sum, size as int),
        <u64 as MapKey>::hashed(word, sum) == fx_add_word(sum, word as int),
        <u128 as MapKey>::hashed(long, sum) == fx_add_word(
            fx_add_word(sum, long as u64 as int),
            (long >> 64) as u64 as int,
        ),
        <bool as MapKey>::hashed(true, sum) == fx_add(sum, 1),
        <bool as MapKey>::hashed(false, sum) == fx_add(sum, 0),
        <String as MapKey>::hashed(text, sum) == fx_add(fx_add_bytes(sum, encode_utf8(text)), 0xff),
        <&'static str as MapKey>::hashed(text, sum) == fx_add(
            fx_add_bytes(sum, encode_utf8(text)),
            0xff,
        ),
        <(A, B) as MapKey>::hashed((a, b), sum) == B::hashed(b, A::hashed(a, sum)),
        <Option<A> as MapKey>::hashed(None, sum) == fx_add(sum, 0),
        <Option<A> as MapKey>::hashed(Some(a), sum) == A::hashed(a, fx_add(sum, 1)),
{
}

} // verus!
