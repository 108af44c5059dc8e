use crate::storage::Storage;
use vstd::prelude::*;

verus! {

/// A type of component values, with the backend that stores them.
pub trait Component: Sized {
    /// The container that a store keeps this type's values in.
    type Storage: Storage<Self>;
}

/// The number of one component kind of a store: its bit position in every
/// entity's mask.
#[derive(Clone, Copy, Debug, PartialEq, Eq, Structural)]
pub struct ComponentId {
    pub id: u64,
}

impl ComponentId {
    /// The kind with the number `id`.
    pub fn new(id: u64) -> (c: Self)
        ensures
            c.id == id,
    {
        ComponentId { id }
    }
}

} // verus!
