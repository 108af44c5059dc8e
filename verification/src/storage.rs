use crate::entity::Entity;
use vstd::prelude::*;

verus! {

/// A container of the values of one component kind, by slot index.
///
/// A storage keeps no record of which entities are alive: whoever owns it
/// decides from the entities' masks which of its values count, and asks only
/// for values that it has put in.
pub trait Storage<T>: Sized {
    /// The values held, by slot index.
    spec fn contents(&self) -> Map<nat, T>;

    /// An empty storage.
    fn new() -> (s: Self)
        ensures
            s.contents() == Map::<nat, T>::empty(),
    ;

    /// The value at the entity's slot.
    fn get_unchecked(&self, entity: Entity) -> (r: &T)
        requires
            self.contents().contains_key(entity@.idx),
        ensures
            *r == self.contents()[entity@.idx],
    ;

    /// The value at the entity's slot, to be changed in place.
    fn get_unchecked_mut(&mut self, entity: Entity) -> (r: &mut T)
        requires
            old(self).contents().contains_key(entity@.idx),
        ensures
            *r == old(self).contents()[entity@.idx],
            final(self).contents() == old(self).contents().insert(entity@.idx, *final(r)),
    ;

    /// Puts `item` at the entity's slot, growing the storage as needed. A
    /// value left at the slot is dropped.
    fn insert_unchecked(&mut self, entity: Entity, item: T)
        ensures
            final(self).contents() == old(self).contents().insert(entity@.idx, item),
    ;

    /// Takes the value out of the entity's slot.
    fn remove_unchecked(&mut self, entity: Entity) -> (r: T)
        requires
            old(self).contents().contains_key(entity@.idx),
        ensures
            r == old(self).contents()[entity@.idx],
            final(self).contents() == old(self).contents().remove(entity@.idx),
    ;
}

/// The dense backend: a growable array with one place per slot index, each
/// place empty or holding a value.
pub struct VecStorage<T> {
    items: Vec<Option<T>>,
}

/// The values that an array of places holds.
pub open spec fn places_contents<T>(places: Seq<Option<T>>) -> Map<nat, T> {
    Map::new(|i: nat| i < places.len() && places[i as int] is Some, |i: nat| places[i as int]->Some_0)
}

impl<T> Default for VecStorage<T> {
    fn default() -> (s: Self)
        ensures
            s.contents() == Map::<nat, T>::empty(),
    {
        <VecStorage<T> as Storage<T>>::new()
    }
}

impl<T> Storage<T> for VecStorage<T> {
    closed spec fn contents(&self) -> Map<nat, T> {
        places_contents(self.items@)
    }

    fn new() -> (s: Self) {
        let s = VecStorage { items: Vec::new() };
        assert(s.contents() =~= Map::<nat, T>::empty());
        s
    }

    fn get_unchecked(&self, entity: Entity) -> (r: &T) {
        self.items[entity.idx()].as_ref().unwrap()
    }

    fn get_unchecked_mut(&mut self, entity: Entity) -> (r: &mut T) {
        let place = &mut self.items[entity.idx()];
        let r = place.as_mut().unwrap();
        r
    }

    fn insert_unchecked(&mut self, entity: Entity, item: T) {
        let idx = entity.idx();
        while self.items.len() <= idx
            invariant
                self.contents() == old(self).contents(),
                self.items@.len() >= old(self).items@.len(),
            decreases idx + 1 - self.items.len(),
        {
            self.items.push(None);
            assert(self.contents() =~= old(self).contents());
        }
        self.items[idx] = Some(item);
        assert(self.contents() =~= old(self).contents().insert(entity@.idx, item));
    }

    fn remove_unchecked(&mut self, entity: Entity) -> (r: T) {
        let idx = entity.idx();
        let r = self.items[idx].take().unwrap();
        assert(self.contents() =~= old(self).contents().remove(entity@.idx));
        r
    }
}

/// Whether `x` is the value `m`.
pub open spec fn same<T>(x: T, m: T) -> bool {
    x == m
}

/// A type with exactly one value, such as a unit struct: a component of
/// such a type is a mark on an entity and carries no data.
pub trait Marker: Sized {
    /// The type's one value.
    fn mark() -> (m: Self)
        ensures
            forall|other: Self| #[trigger] same(other, m),
    ;
}

impl Marker for () {
    fn mark() -> (m: Self) {
        ()
    }
}

/// The backend for marks: it keeps no value per entity. Putting a mark in
/// and taking one out do no work, and the value it gives for an entity is
/// always the type's one value.
pub struct NullStorage<T: Marker> {
    mark: T,
    present: Ghost<Set<nat>>,
}

impl<T: Marker> Default for NullStorage<T> {
    fn default() -> (s: Self)
        ensures
            s.contents() == Map::<nat, T>::empty(),
    {
        <NullStorage<T> as Storage<T>>::new()
    }
}

impl<T: Marker> Storage<T> for NullStorage<T> {
    closed spec fn contents(&self) -> Map<nat, T> {
        Map::new(|i: nat| self.present@.contains(i), |i: nat| self.mark)
    }

    fn new() -> (s: Self) {
        let s = NullStorage { mark: T::mark(), present: Ghost(Set::empty()) };
        assert(s.contents() =~= Map::<nat, T>::empty());
        s
    }

    fn get_unchecked(&self, entity: Entity) -> (r: &T) {
        &self.mark
    }

    fn get_unchecked_mut(&mut self, entity: Entity) -> (r: &mut T) {
        let m = T::mark();
        let ghost before = self.contents();
        let ghost after = final(self).contents();
        let ghost mark = self.mark;
        let r = &mut self.mark;
        proof {
            assert(same(*final(r), m) && same(mark, m));
            assert(after =~= before.insert(entity@.idx, *final(r)));
        }
        r
    }

    fn insert_unchecked(&mut self, entity: Entity, item: T) {
        let m = T::mark();
        proof {
            self.present@ = self.present@.insert(entity@.idx);
            assert(same(item, m) && same(self.mark, m));
        }
        assert(self.contents() =~= old(self).contents().insert(entity@.idx, item));
    }

    fn remove_unchecked(&mut self, entity: Entity) -> (r: T) {
        proof {
            self.present@ = self.present@.remove(entity@.idx);
        }
        assert(self.contents() =~= old(self).contents().remove(entity@.idx));
        let r = T::mark();
        assert(same(self.mark, r));
        r
    }
}

} // verus!
