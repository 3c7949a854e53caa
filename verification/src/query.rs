//! What a plan is: its rows, and what is known of them before it runs.
use std::marker::PhantomData;
use vstd::prelude::*;

use crate::value::{CellValue, MapKey};

verus! {

/// Each row of the input gives one row of the output.
#[derive(Clone, Copy, Debug)]
pub struct ExactlyOne;

/// Each row of the input gives at most one row of the output.
#[derive(Clone, Copy, Debug)]
pub struct ZeroOrOne;

/// A row of the input gives any number of rows of the output, or shares one with others.
#[derive(Clone, Copy, Debug)]
pub struct Many;

/// How many rows of the output a row of the input gives.
pub trait Cardinality {

}

impl Cardinality for ExactlyOne {

}

impl Cardinality for ZeroOrOne {

}

impl Cardinality for Many {

}

/// Rows belong together by their map key.
#[derive(Debug)]
pub struct ByMapKey<K>(pub PhantomData<K>);

/// Rows belong together by the relationship that joined them.
#[derive(Debug)]
pub struct ByRelation<Rel>(pub PhantomData<Rel>);

/// Rows belong together by a key that they did not have before.
#[derive(Debug)]
pub struct Repartition<K>(pub PhantomData<K>);

/// Which rows belong together.
pub trait Partition {

}

impl<K> Partition for ByMapKey<K> {

}

impl<Rel> Partition for ByRelation<Rel> {

}

impl<K> Partition for Repartition<K> {

}

/// What is known of a plan from its type.
pub trait PlanProperties {
    type Cardinality: Cardinality;

    type InputPartition: Partition;

    type OutputPartition: Partition;
}

/// A plan whose rows belong together by their map key.
pub trait PreservesMapKey<K>: PlanProperties {

}

impl<K, P: PlanProperties<OutputPartition = ByMapKey<K>>> PreservesMapKey<K> for P {

}

/// A plan of rows with a key and a value.
///
/// Functions handed to plans depend on the models of their arguments alone. How often they are
/// called, in which order and on which thread is not promised.
pub trait MapQuery: PlanProperties + Sized {
    type Key: MapKey;

    type Value: CellValue;

    /// The plan is a source of rows itself, and computes nothing.
    spec fn raw_source(&self) -> bool;

    fn is_raw_source(&self) -> (raw: bool)
        ensures
            raw == self.raw_source(),
    ;
}

} // verus!
