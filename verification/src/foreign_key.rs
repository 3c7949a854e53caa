//! Foreign keys between rows, and the keys by which rows are joined.
use vstd::prelude::*;

use crate::func::{call2, image2, pure2, RowFn};
use crate::value::{CellValue, MapKey};

verus! {

/// An identifier of an entity `T`, and the key under which a map holds that entity.
pub trait IdFor<T>: CellValue {
    type MapKey: CellValue;

    /// The model of the map key of an identifier with this model.
    spec fn key_for(id: Self::Model) -> <Self::MapKey as CellValue>::Model;

    fn map_key(&self) -> (key: Self::MapKey)
        ensures
            key.model() == Self::key_for(self.model()),
    ;
}

impl<T, I: IdFor<T>> IdFor<T> for Option<I> {
    type MapKey = Option<I::MapKey>;

    open spec fn key_for(id: Option<I::Model>) -> Option<<I::MapKey as CellValue>::Model> {
        match id {
            Some(i) => Some(I::key_for(i)),
            None => None,
        }
    }

    fn map_key(&self) -> (key: Option<I::MapKey>)
        ensures
            key is Some == self is Some,
            self is Some ==> key->Some_0.model() == I::key_for(self->Some_0.model()),
    {
        match self {
            Some(id) => Some(id.map_key()),
            None => None,
        }
    }
}

/// The entity that an identifier type identifies.
pub trait IdType {
    type Parent;
}

impl<I: IdType> IdType for Option<I> {
    type Parent = I::Parent;
}

/// A named foreign-key relationship between a child row and a parent keyspace.
///
/// The implementing type is the relationship's identity, so one child type can declare several
/// relationships to the same parent type. [`ForeignKeyRelation::foreign_key`] returns `None` for
/// an absent optional relationship.
pub trait ForeignKeyRelation: Send + Sync + 'static {
    /// The parent entity.
    type Parent: Send + Sync + 'static;

    /// The child row that holds the foreign key.
    type Child: CellValue;

    /// The identifier of a parent.
    type ForeignKey: IdFor<Self::Parent>;

    /// The model of the foreign key of a child with this model.
    spec fn key_of(child: <Self::Child as CellValue>::Model) -> Option<
        <Self::ForeignKey as CellValue>::Model,
    >;

    /// The foreign key of a child, or `None` where the relationship is absent.
    fn foreign_key(child: &Self::Child) -> (key: Option<Self::ForeignKey>)
        ensures
            key.model() == Self::key_of(child.model()),
    ;
}

/// The key by which a right row is joined, where it has one.
pub trait RightJoinKey<RK: CellValue, RV: CellValue, JK: CellValue>: Send + Sync + 'static {
    /// The extractor can be called, and its result depends on the models of the row alone.
    spec fn lawful(&self) -> bool;

    /// The model of the join key of a row.
    spec fn key_of(&self, row_key: RK::Model, row_value: RV::Model) -> Option<JK::Model>;

    /// Whether a row can be without a join key.
    fn is_optional(&self) -> (optional: bool)
        ensures
            !optional && self.lawful() ==> forall|k: RK::Model, v: RV::Model| #[trigger]
                self.key_of(k, v) is Some,
    ;

    /// The join key, or `None` where the row has no relationship.
    fn right_join_key(&self, row_key: &RK, row_value: &RV) -> (key: Option<JK>)
        requires
            self.lawful(),
        ensures
            key.model() == self.key_of(row_key.model(), row_value.model()),
    ;
}

/// A right key extractor that always gives a key.
pub struct RequiredRightKey<F>(pub F);

impl<
    RK: CellValue,
    RV: CellValue,
    JK: CellValue,
    F: RowFn<RK, RV, JK>,
> RightJoinKey<RK, RV, JK> for RequiredRightKey<F> {
    open spec fn lawful(&self) -> bool {
        pure2::<RK, RV, JK, F>(self.0)
    }

    open spec fn key_of(&self, row_key: RK::Model, row_value: RV::Model) -> Option<JK::Model> {
        Some(image2::<RK, RV, JK, F>(self.0, row_key, row_value))
    }

    fn is_optional(&self) -> (optional: bool)
        ensures
            !optional,
    {
        false
    }

    fn right_join_key(&self, row_key: &RK, row_value: &RV) -> (key: Option<JK>)
        ensures
            key is Some,
            key->Some_0.model() == self.0.image(row_key.model(), row_value.model()),
    {
        Some(call2(&self.0, row_key, row_value))
    }
}

/// A right key extractor whose relationship may be absent.
pub struct OptionalRightKey<F>(pub F);

impl<
    RK: CellValue,
    RV: CellValue,
    JK: CellValue,
    F: RowFn<RK, RV, Option<JK>>,
> RightJoinKey<RK, RV, JK> for OptionalRightKey<F> {
    open spec fn lawful(&self) -> bool {
        pure2::<RK, RV, Option<JK>, F>(self.0)
    }

    open spec fn key_of(&self, row_key: RK::Model, row_value: RV::Model) -> Option<JK::Model> {
        image2::<RK, RV, Option<JK>, F>(self.0, row_key, row_value)
    }

    fn is_optional(&self) -> (optional: bool)
        ensures
            optional,
    {
        true
    }

    fn right_join_key(&self, row_key: &RK, row_value: &RV) -> (key: Option<JK>)
        ensures
            key.model() == self.0.image(row_key.model(), row_value.model()),
    {
        call2(&self.0, row_key, row_value)
    }
}

/// A right key extractor that always gives a key can be called where its function can.
pub proof fn required_key_lawful<
    RK: CellValue,
    RV: CellValue,
    JK: CellValue,
    F: RowFn<RK, RV, JK>,
>(key: RequiredRightKey<F>)
    requires
        pure2::<RK, RV, JK, F>(key.0),
    ensures
        RightJoinKey::<RK, RV, JK>::lawful(&key),
        forall|k: RK::Model, v: RV::Model| #[trigger]
            RightJoinKey::<RK, RV, JK>::key_of(&key, k, v) == Some(
                image2::<RK, RV, JK, F>(key.0, k, v),
            ),
{
}

/// The join key function of an extractor.
pub open spec fn right_key<RK: CellValue, RV: CellValue, JK: CellValue, FR: RightJoinKey<RK, RV, JK>>(
    f: FR,
) -> spec_fn(RK::Model, RV::Model) -> Option<JK::Model> {
    |k: RK::Model, v: RV::Model| f.key_of(k, v)
}

/// A left join key made from a right one.
pub trait JoinKeyFrom<R: CellValue>: CellValue {
    spec fn key_from(value: R::Model) -> Self::Model;

    fn join_key_from(value: &R) -> (key: Self)
        ensures
            key.model() == Self::key_from(value.model()),
    ;
}

impl<T: CellValue> JoinKeyFrom<T> for T {
    open spec fn key_from(value: T::Model) -> T::Model {
        value
    }

    fn join_key_from(value: &T) -> (key: T)
        ensures
            key.model() == value.model(),
    {
        value.clone_value()
    }
}

impl<T: CellValue> JoinKeyFrom<T> for Option<T> {
    open spec fn key_from(value: T::Model) -> Option<T::Model> {
        Some(value)
    }

    fn join_key_from(value: &T) -> (key: Option<T>)
        ensures
            key is Some,
            key->Some_0.model() == value.model(),
    {
        Some(value.clone_value())
    }
}

} // verus!
