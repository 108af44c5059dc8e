use vstd::prelude::*;

verus! {

/// A value that a store can keep as the one instance of its type.
pub trait Resource: Sized + 'static {

}

impl<T: Sized + 'static> Resource for T {

}

/// The table of a store's resources: at most one value of each type, found
/// again by its type.
///
/// The table is an `anymap::AnyMap`. Which values it holds is not visible
/// to the verifier: only their number is.
#[verifier::external_body]
pub struct Table {
    map: anymap::AnyMap,
}

/// How many values the table holds.
pub uninterp spec fn table_len(t: Table) -> nat;

/// `anymap::Map::new`: a table that holds no value.
#[verifier::external_body]
pub(crate) fn table_new() -> (t: Table)
    ensures
        table_len(t) == 0,
{
    Table { map: anymap::AnyMap::new() }
}

/// `anymap::Map::insert`: puts `value` in the table as the value of its
/// type, and returns the value of that type that was there before, if any.
/// The contract claims only the count: a value that takes another's place
/// leaves the number of values as it was, any other adds one, and the
/// table then holds at least the value that was put in. Which value comes
/// back is not stated.
#[verifier::external_body]
pub(crate) fn table_insert<R: Resource>(t: &mut Table, value: R) -> (prev: Option<R>)
    ensures
        prev is Some ==> table_len(*final(t)) == table_len(*old(t)),
        prev is None ==> table_len(*final(t)) == table_len(*old(t)) + 1,
        table_len(*final(t)) >= 1,
{
    t.map.insert(value)
}

/// `anymap::Map::get`: the table's value of type `R`, if it has one. The
/// contract claims only that a table without values gives none.
#[verifier::external_body]
pub(crate) fn table_get<R: Resource>(t: &Table) -> (r: Option<&R>)
    ensures
        table_len(*t) == 0 ==> r is None,
{
    t.map.get::<R>()
}

/// `anymap::Map::get_mut`: the table's value of type `R`, to be changed in
/// place, if it has one. The contract claims only that a table without
/// values gives none, and that the table holds as many values afterwards,
/// whatever is done to the one that was handed out.
#[verifier::external_body]
pub(crate) fn table_get_mut<R: Resource>(t: &mut Table) -> (r: Option<&mut R>)
    ensures
        table_len(*old(t)) == 0 ==> r is None,
        table_len(*final(t)) == table_len(*old(t)),
{
    t.map.get_mut::<R>()
}

} // verus!
