//! What the projections of joins make of a left row and the right rows that match it.
use vstd::prelude::*;

use crate::foreign_key::{
    ForeignKeyRelation, IdFor, JoinKeyFrom, OptionalRightKey, RequiredRightKey, RightJoinKey,
};
use crate::func::{RowFn, RowsFn};
use crate::join_region::declaration::{
    values_in_place, CollectProject, DirectProject, FilterProject, StageProject, ThenMap,
};
use crate::left_join::{
    DirectJoinProjection, JoinProjection, JoinProjectionProject, TupleJoinProjection,
};
use crate::row_fns::{Collected, FirstMatch, Matched, OwnKey, Paired, ParentKey};
use crate::value::CellValue;

verus! {

/// A left join gives each left row with the values of all right rows that match it, one for each, in the
/// same places.
pub proof fn collected_row<K: CellValue, V: CellValue, RK: CellValue, RV: CellValue>(
    key: K::Model,
    row: V::Model,
    rights: Seq<(RK::Model, RV::Model)>,
) -> (out: (V::Model, Seq<RV::Model>))
    ensures
        StageProject::<K, V, RK, RV, (V, Vec<RV>)>::projected(
            &DirectProject(Collected),
            key,
            row,
            rights,
        ) == Some(out),
        RowsFn::<K, V, RK, RV, (V, Vec<RV>)>::image(&Collected, key, row, rights) == out,
        out.0 == row,
        out.1.len() == rights.len(),
        forall|i: int| 0 <= i < rights.len() ==> #[trigger] out.1[i] == rights[i].1,
{
    values_in_place(rights);
    RowsFn::<K, V, RK, RV, (V, Vec<RV>)>::image(&Collected, key, row, rights)
}

/// A function of a left row and the values that match it sees the row and the values of all right rows
/// that match it, whether it stands in a stage, in one of two joins that work as one, or behind a join.
pub proof fn function_of_collected_row<
    K: CellValue,
    V: CellValue,
    RK: CellValue,
    RV: CellValue,
    OV: CellValue,
    F: RowFn<K, (V, Vec<RV>), OV>,
>(
    f: F,
    then: ThenMap<DirectProject<Collected>, F, (V, Vec<RV>)>,
    key: K::Model,
    row: V::Model,
    rights: Seq<(RK::Model, RV::Model)>,
    values: Seq<RV::Model>,
)
    requires
        then.map == f,
        values.len() == rights.len(),
        forall|i: int| 0 <= i < rights.len() ==> #[trigger] values[i] == rights[i].1,
    ensures
        JoinProjection::<K, V, RK, RV, OV>::projected(&TupleJoinProjection(f), key, row, rights)
            == f.image(key, (row, values)),
        StageProject::<K, V, RK, RV, OV>::projected(
            &JoinProjectionProject(TupleJoinProjection(f)),
            key,
            row,
            rights,
        ) == Some(f.image(key, (row, values))),
        StageProject::<K, V, RK, RV, OV>::projected(&CollectProject(f), key, row, rights) == Some(
            f.image(key, (row, values)),
        ),
        StageProject::<K, V, RK, RV, OV>::projected(&then, key, row, rights) == Some(
            f.image(key, (row, values)),
        ),
{
    let out = collected_row::<K, V, RK, RV>(key, row, rights);
    assert(out.1 =~= values);
}

/// A function of a left row and the right rows that match it sees just these rows, whether it stands in
/// a stage or in one of two joins that work as one.
pub proof fn function_of_matching_rows<
    K: CellValue,
    V: CellValue,
    RK: CellValue,
    RV: CellValue,
    OV: CellValue,
    F: RowsFn<K, V, RK, RV, OV>,
>(f: F, key: K::Model, row: V::Model, rights: Seq<(RK::Model, RV::Model)>)
    ensures
        StageProject::<K, V, RK, RV, OV>::projected(&DirectProject(f), key, row, rights) == Some(
            f.image(key, row, rights),
        ),
        JoinProjection::<K, V, RK, RV, OV>::projected(&DirectJoinProjection(f), key, row, rights)
            == f.image(key, row, rights),
        StageProject::<K, V, RK, RV, OV>::projected(
            &JoinProjectionProject(DirectJoinProjection(f)),
            key,
            row,
            rights,
        ) == Some(f.image(key, row, rights)),
{
}

/// A function behind a projection works on what the projection gives, and gives nothing where the
/// projection gives nothing; a filter behind it lets through what it accepts, as it is.
pub proof fn behind_a_projection<
    K: CellValue,
    V: CellValue,
    RK: CellValue,
    RV: CellValue,
    MV: CellValue,
    OV: CellValue,
    P: StageProject<K, V, RK, RV, MV>,
    F: RowFn<K, MV, OV>,
    G: RowFn<K, MV, bool>,
>(
    mapped: ThenMap<P, F, MV>,
    filtered: FilterProject<P, G>,
    key: K::Model,
    row: V::Model,
    rights: Seq<(RK::Model, RV::Model)>,
)
    ensures
        mapped.project.projected(key, row, rights) is None ==> StageProject::<
            K,
            V,
            RK,
            RV,
            OV,
        >::projected(&mapped, key, row, rights) is None,
        mapped.project.projected(key, row, rights) is Some ==> StageProject::<
            K,
            V,
            RK,
            RV,
            OV,
        >::projected(&mapped, key, row, rights) == Some(
            mapped.map.image(key, mapped.project.projected(key, row, rights)->Some_0),
        ),
        StageProject::<K, V, RK, RV, MV>::projected(&filtered, key, row, rights) is Some ==> (
        filtered.project.projected(key, row, rights) == StageProject::<
            K,
            V,
            RK,
            RV,
            MV,
        >::projected(&filtered, key, row, rights) && filtered.predicate.image(
            key,
            filtered.project.projected(key, row, rights)->Some_0,
        )),
        filtered.project.projected(key, row, rights) is Some && filtered.predicate.image(
            key,
            filtered.project.projected(key, row, rights)->Some_0,
        ) ==> StageProject::<K, V, RK, RV, MV>::projected(&filtered, key, row, rights)
            == filtered.project.projected(key, row, rights),
{
}

/// The rows that a left row gives: in an inner join one for each right row that matches it, in its place,
/// with both keys and both values; in a semi join itself where a right row matches it; and in an inner
/// join of rows with the same key itself with the first that matches it.
pub proof fn rows_of_matches<K: CellValue, V: CellValue, RK: CellValue, RV: CellValue>(
    key: K::Model,
    row: V::Model,
    rights: Seq<(RK::Model, RV::Model)>,
)
    ensures
        RowsFn::<K, V, RK, RV, Vec<((K, RK), (V, RV))>>::image(&Paired, key, row, rights).len()
            == rights.len(),
        forall|i: int|
            0 <= i < rights.len() ==> #[trigger] RowsFn::<
                K,
                V,
                RK,
                RV,
                Vec<((K, RK), (V, RV))>,
            >::image(&Paired, key, row, rights)[i] == ((key, rights[i].0), (row, rights[i].1)),
        rights.len() == 0 ==> RowsFn::<K, V, RK, RV, Vec<(K, V)>>::image(
            &Matched,
            key,
            row,
            rights,
        ).len() == 0,
        rights.len() > 0 ==> RowsFn::<K, V, RK, RV, Vec<(K, V)>>::image(&Matched, key, row, rights)
            == seq![(key, row)],
        rights.len() == 0 ==> StageProject::<K, V, RK, RV, (V, RV)>::projected(
            &FirstMatch,
            key,
            row,
            rights,
        ) is None,
        rights.len() > 0 ==> StageProject::<K, V, RK, RV, (V, RV)>::projected(
            &FirstMatch,
            key,
            row,
            rights,
        ) == Some((row, rights[0].1)),
{
}

/// The join keys of rows: the key of a row by itself, what a function gives for it, or the map key of
/// its parent, which a child without a foreign key has not.
pub proof fn join_keys<
    K: CellValue,
    V: CellValue,
    RK: CellValue,
    JK: CellValue,
    Rel: ForeignKeyRelation,
    F: RowFn<K, V, JK>,
    G: RowFn<K, V, Option<JK>>,
>(f: F, g: G, parent: ParentKey<Rel>, key: K::Model, row: V::Model, child_key: RK::Model, child: <
    Rel::Child as CellValue>::Model) where Rel::ForeignKey: IdFor<Rel::Parent, MapKey = K>
    ensures
        RowFn::<K, V, K>::image(&OwnKey, key, row) == key,
        RightJoinKey::<K, V, K>::key_of(&RequiredRightKey(OwnKey), key, row) == Some(key),
        RightJoinKey::<K, V, JK>::key_of(&RequiredRightKey(f), key, row) == Some(
            f.image(key, row),
        ),
        RightJoinKey::<K, V, JK>::key_of(&OptionalRightKey(g), key, row) == g.image(key, row),
        Rel::key_of(child) is None ==> RightJoinKey::<RK, Rel::Child, K>::key_of(
            &OptionalRightKey(parent),
            child_key,
            child,
        ) is None,
        Rel::key_of(child) is Some ==> RightJoinKey::<RK, Rel::Child, K>::key_of(
            &OptionalRightKey(parent),
            child_key,
            child,
        ) == Some(<Rel::ForeignKey as IdFor<Rel::Parent>>::key_for(Rel::key_of(child)->Some_0)),
{
}

/// A join key is made from a value as the value itself, or as the value where one may be absent; the map
/// key of an identifier that may be absent is that of the identifier.
pub proof fn made_keys<T: CellValue, E, I: IdFor<E>>(value: T::Model, id: Option<I::Model>)
    ensures
        <T as JoinKeyFrom<T>>::key_from(value) == value,
        <Option<T> as JoinKeyFrom<T>>::key_from(value) == Some(value),
        id is None ==> <Option<I> as IdFor<E>>::key_for(id) is None,
        id is Some ==> <Option<I> as IdFor<E>>::key_for(id) == Some(I::key_for(id->Some_0)),
{
}

} // verus!
