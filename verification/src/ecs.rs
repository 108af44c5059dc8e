use crate::bitmask::{bit, filter_view, lemma_bitwise, lemma_single_bit, WIDTH};
use crate::component::{Component, ComponentId};
use crate::entity::Entity as EntityId;
use crate::entity::{
    after_create, after_delete, created, none_reusable, resolves, reusable, selects, Entities, Id,
    Slot,
};
use crate::query::{
    acquire, combined_filter, conflict, covers, has_value, lemma_plan_matches,
    lemma_plan_registered, plan, writes, Pattern, Query,
};
use crate::row::Row;
use crate::resource::{
    table_get, table_get_mut, table_insert, table_len, table_new, Resource, Table,
};
use crate::row::{places_of, Place, Read, Write};
use crate::storage::Storage;
use vstd::prelude::*;

verus! {

/// Why no requirement can be made of some terms.
#[derive(Clone, Copy, Debug, PartialEq, Eq, Structural)]
pub enum Error {
    /// A term speaks of a component kind that was never registered.
    MissingStorage,
    /// Two terms ask opposite things of the same kind.
    IncompatibleFilter,
}

/// What a store holds: the registry's slots; for each registered component
/// kind, the values in that kind's storage by slot index; and the number
/// of resources.
pub struct World<C> {
    pub slots: Seq<Slot>,
    pub values: Seq<Map<nat, C>>,
    pub resources: nat,
}

/// The mask is the truth about presence: a bit that is set in any slot's
/// mask stands for a registered kind, and that kind's storage has a value at
/// the slot.
pub open spec fn coherent<C>(w: World<C>) -> bool {
    forall|i: int, k: u64|
        0 <= i < w.slots.len() && #[trigger] bit(w.slots[i].mask, k) ==> k < w.values.len()
            && w.values[k as int].contains_key(i as nat)
}

/// Changing values in place keeps the masks true: a world with the same
/// slots, in which every storage still has a value wherever it had one, is
/// coherent if the first was.
pub proof fn lemma_coherent_kept<C>(before: World<C>, after: World<C>)
    requires
        coherent(before),
        after.slots == before.slots,
        after.values.len() == before.values.len(),
        forall|k: int, i: nat|
            0 <= k < before.values.len() && #[trigger] before.values[k].contains_key(i)
                ==> after.values[k].contains_key(i),
    ensures
        coherent(after),
{
    assert forall|i: int, k: u64|
        0 <= i < after.slots.len() && #[trigger] bit(after.slots[i].mask, k) implies k
        < after.values.len() && after.values[k as int].contains_key(i as nat) by {
        assert(bit(before.slots[i].mask, k));
        assert(before.values[k as int].contains_key(i as nat));
    }
}

/// Presence goes and comes back with the component: an entity that was
/// given a component holds it; once the component is taken away the entity
/// holds none of that kind, whatever it held before; and given one again,
/// it holds the new one.
pub proof fn lemma_presence_round_trip<C>(w: World<C>, id: Id, k: u64, first: C, second: C)
    requires
        resolves(w.slots, id),
        k < w.values.len() <= WIDTH,
    ensures
        w.with_component(id, k, first).holds(id, k),
        w.with_component(id, k, first).values[k as int][id.idx] == first,
        !w.with_component(id, k, first).without_component(id, k).holds(id, k),
        w.with_component(id, k, first).without_component(id, k).with_component(
            id,
            k,
            second,
        ).holds(id, k),
        w.with_component(id, k, first).without_component(id, k).with_component(
            id,
            k,
            second,
        ).values[k as int][id.idx] == second,
{
    let m = w.slots[id.idx as int].mask;
    assert(k < 64 ==> ((m | (1u64 << k)) >> k) & 1 == 1) by (bit_vector);
    assert(k < 64 ==> (((m | (1u64 << k)) & !(1u64 << k)) >> k) & 1 == 0) by (bit_vector);
    assert(k < 64 ==> ((((m | (1u64 << k)) & !(1u64 << k)) | (1u64 << k)) >> k) & 1 == 1)
        by (bit_vector);
}

/// Giving or taking a component of one kind leaves the entity's other
/// kinds, and every other entity, as they were.
pub proof fn lemma_other_presence_kept<C>(w: World<C>, id: Id, k: u64, value: C, other: Id, j: u64)
    requires
        resolves(w.slots, id),
        k < w.values.len() <= WIDTH,
        other.idx != id.idx || j != k,
    ensures
        w.with_component(id, k, value).holds(other, j) == w.holds(other, j),
        w.without_component(id, k).holds(other, j) == w.holds(other, j),
{
    let m = w.slots[id.idx as int].mask;
    lemma_bitwise(m, 1u64 << k, j);
    lemma_bitwise(m, !(1u64 << k), j);
    lemma_bitwise(1u64 << k, 0, j);
    lemma_single_bit(k, j);
}

impl<C> World<C> {
    /// Whether the entity `id` is alive and holds a component of kind `k`.
    pub open spec fn holds(self, id: Id, k: u64) -> bool {
        resolves(self.slots, id) && bit(self.slots[id.idx as int].mask, k)
    }

    /// The world after the live entity `id` was given `value` as its
    /// component of kind `k`.
    pub open spec fn with_component(self, id: Id, k: u64, value: C) -> World<C> {
        World {
            slots: self.slots.update(
                id.idx as int,
                Slot {
                    mask: self.slots[id.idx as int].mask | (1u64 << k),
                    ..self.slots[id.idx as int]
                },
            ),
            values: self.values.update(k as int, self.values[k as int].insert(id.idx, value)),
            ..self
        }
    }

    /// The world after the component of kind `k` was taken from the live
    /// entity `id`.
    pub open spec fn without_component(self, id: Id, k: u64) -> World<C> {
        World {
            slots: self.slots.update(
                id.idx as int,
                Slot {
                    mask: self.slots[id.idx as int].mask & !(1u64 << k),
                    ..self.slots[id.idx as int]
                },
            ),
            values: self.values.update(k as int, self.values[k as int].remove(id.idx)),
            ..self
        }
    }
}

/// Shared access to the registry and to the storage of one component kind.
pub struct ReadStorage<'a, C: Component> {
    /// The store's registry.
    pub entities: Read<'a, Entities>,
    /// The storage of the kind.
    pub storage: Read<'a, C::Storage>,
}

/// Exclusive access to the registry and to the storage of one component
/// kind. Whoever holds it answers for the masks staying true: see
/// [`Ecs::write_storage`].
pub struct WriteStorage<'a, C: Component> {
    /// The store's registry.
    pub entities: Write<'a, Entities>,
    /// The storage of the kind.
    pub storage: Write<'a, C::Storage>,
}

/// Whether `q` is the query that the terms bind to a store that holds
/// `w`: it walks that store's registry by the terms' requirement, and holds
/// for each term the access that the term asks for, to the storage of the
/// term's kind.
pub open spec fn bound<'a, C: Component + 'a>(
    q: Query<'a, C>,
    terms: Seq<Pattern>,
    w: World<C>,
) -> bool {
    &&& q.wf()
    &&& plan(terms, w.values.len(), terms.len() as int) == Ok::<(u64, u64), Error>(
        filter_view(q.filter),
    )
    &&& q.entities@ == w.slots
    &&& q.state@.len() == terms.len()
    &&& forall|k: int|
        0 <= k < terms.len() ==> match #[trigger] terms[k] {
            Pattern::Read(c) => q.state@[k] is Read && q.state@[k]->Read_0.0.contents()
                == w.values[c.id as int],
            Pattern::Write(c) => q.state@[k] is Write && q.state@[k]->Write_0.0.contents()
                == w.values[c.id as int],
            Pattern::Not(_) => q.state@[k] is Nothing,
            Pattern::Entity => q.state@[k] is Entity,
        }
}

/// The store: a registry of entities and one storage per registered
/// component kind.
pub struct Ecs<C: Component> {
    entities: Entities,
    component_id: u64,
    storages: Vec<C::Storage>,
    resources: Table,
}

impl<C: Component> View for Ecs<C> {
    type V = World<C>;

    closed spec fn view(&self) -> World<C> {
        World {
            slots: self.entities@,
            values: self.storages@.map_values(|s: C::Storage| s.contents()),
            resources: table_len(self.resources),
        }
    }
}

impl<C: Component> Default for Ecs<C> {
    fn default() -> (ecs: Self)
        ensures
            ecs.wf(),
            ecs.has_room(),
            ecs@.slots == Seq::<Slot>::empty(),
            ecs@.values == Seq::<Map<nat, C>>::empty(),
            ecs@.resources == 0,
    {
        Ecs::new()
    }
}

impl<C: Component> Ecs<C> {
    /// The store's invariant: at most [`WIDTH`] kinds are registered, every
    /// slot index fits in 32 bits, and the masks are the truth about
    /// presence.
    pub closed spec fn wf(&self) -> bool {
        &&& self.entities.wf()
        &&& self.component_id == self.storages@.len()
        &&& self.component_id <= WIDTH
        &&& coherent(self@)
    }

    /// Whether `create` can hand out a handle.
    pub closed spec fn has_room(&self) -> bool {
        self.entities.has_room()
    }

    /// What the invariant says of the view.
    pub proof fn lemma_wf(&self)
        requires
            self.wf(),
        ensures
            self@.values.len() <= WIDTH,
            self@.slots.len() <= 0x1_0000_0000,
            coherent(self@),
            self.has_room() <==> self.entities_room(),
    {
    }

    /// Whether the registry has a slot to use again, or room for one more.
    pub open spec fn entities_room(&self) -> bool {
        !none_reusable(self@.slots) || self@.slots.len() <= u32::MAX
    }

    /// A store without entities, component kinds or resources.
    pub fn new() -> (ecs: Self)
        ensures
            ecs.wf(),
            ecs.has_room(),
            ecs@.slots == Seq::<Slot>::empty(),
            ecs@.values == Seq::<Map<nat, C>>::empty(),
            ecs@.resources == 0,
    {
        let ecs = Ecs {
            entities: Entities::new(),
            component_id: 0,
            storages: Vec::new(),
            resources: table_new(),
        };
        assert(ecs@.values =~= Seq::<Map<nat, C>>::empty());
        ecs
    }

    /// Keeps `res` as the store's one value of its type, and returns the
    /// value of that type that the store kept before, if any. A value that
    /// takes another's place leaves the number of resources as it was; any
    /// other adds one.
    pub fn insert_resource<R: Resource>(&mut self, res: R) -> (prev: Option<R>)
        ensures
            final(self)@.slots == old(self)@.slots,
            final(self)@.values == old(self)@.values,
            prev is Some ==> final(self)@.resources == old(self)@.resources,
            prev is None ==> final(self)@.resources == old(self)@.resources + 1,
            final(self)@.resources >= 1,
            old(self).wf() ==> final(self).wf(),
            old(self).has_room() ==> final(self).has_room(),
    {
        let ghost before = self@;
        let prev = table_insert(&mut self.resources, Row::new(res));
        proof {
            assert(self@.values =~= before.values);
            if old(self).wf() {
                lemma_coherent_kept(before, self@);
            }
        }
        Row::taken(prev)
    }

    /// The store, with `res` kept as its one value of its type.
    pub fn with_resource<R: Resource>(self, res: R) -> (ecs: Self)
        ensures
            ecs@.slots == self@.slots,
            ecs@.values == self@.values,
            ecs@.resources >= 1,
            self@.resources <= ecs@.resources <= self@.resources + 1,
            self.wf() ==> ecs.wf(),
            self.has_room() ==> ecs.has_room(),
    {
        let mut ecs = self;
        let _ = ecs.insert_resource(res);
        ecs
    }

    /// Shared access to the store's value of type `R`, if it keeps one. A
    /// store without resources keeps none.
    pub fn read_resource<R: Resource>(&self) -> (r: Option<Read<'_, R>>)
        ensures
            self@.resources == 0 ==> r is None,
    {
        Row::read_found(table_get::<Row<R>>(&self.resources))
    }

    /// Exclusive access to the store's value of type `R`, if it keeps one.
    /// A store without resources keeps none. Entities, components and the
    /// number of resources are out of the guard's reach.
    pub fn write_resource<R: Resource>(&mut self) -> (r: Option<Write<'_, R>>)
        ensures
            old(self)@.resources == 0 ==> r is None,
            final(self)@ == old(self)@,
            old(self).wf() ==> final(self).wf(),
            old(self).has_room() ==> final(self).has_room(),
    {
        Row::write_found(table_get_mut::<Row<R>>(&mut self.resources))
    }

    /// The store's value of type `R`, to be changed in place, if the store
    /// keeps one. A store without resources keeps none. Entities,
    /// components and the number of resources are out of the reference's
    /// reach.
    pub fn mut_resource<R: Resource>(&mut self) -> (r: Option<&mut R>)
        ensures
            old(self)@.resources == 0 ==> r is None,
            final(self)@ == old(self)@,
            old(self).wf() ==> final(self).wf(),
            old(self).has_room() ==> final(self).has_room(),
    {
        Row::mut_found(table_get_mut::<Row<R>>(&mut self.resources))
    }

    /// The number of registered component kinds.
    pub fn kinds(&self) -> (n: u64)
        requires
            self.wf(),
        ensures
            n == self@.values.len(),
    {
        self.component_id
    }

    /// The bit position of a registered component kind.
    fn storage_id(&self, kind: ComponentId) -> (k: u64)
        requires
            self.wf(),
            kind.id < self@.values.len(),
        ensures
            k == kind.id,
            k < self.component_id,
    {
        kind.id
    }

    /// The registry of the store's entities.
    pub fn entities(&self) -> (e: &Entities)
        ensures
            e@ == self@.slots,
            self.wf() ==> e.wf(),
    {
        &self.entities
    }

    /// Registers one more component kind, with an empty storage, and
    /// returns its number: the next unused bit position.
    pub fn insert_storage(&mut self) -> (kind: ComponentId)
        requires
            old(self).wf(),
            old(self)@.values.len() < WIDTH,
        ensures
            final(self).wf(),
            kind.id == old(self)@.values.len(),
            final(self)@ == (World {
                values: old(self)@.values.push(Map::<nat, C>::empty()),
                ..old(self)@
            }),
            old(self).has_room() ==> final(self).has_room(),
    {
        let id = self.component_id;
        self.storages.push(C::Storage::new());
        self.component_id = id + 1;
        assert(self@.values =~= old(self)@.values.push(Map::<nat, C>::empty()));
        ComponentId { id }
    }

    /// The store, with one more component kind registered.
    pub fn with_storage(self) -> (ecs: Self)
        requires
            self.wf(),
            self@.values.len() < WIDTH,
        ensures
            ecs.wf(),
            self.has_room() ==> ecs.has_room(),
            ecs@ == (World { values: self@.values.push(Map::<nat, C>::empty()), ..self@ }),
    {
        let mut ecs = self;
        let _ = ecs.insert_storage();
        ecs
    }

    /// The store as `setup` hands it back.
    pub fn with_setup<F: FnOnce(Self) -> Self>(self, setup: F) -> (ecs: Self)
        requires
            call_requires(setup, (self,)),
        ensures
            call_ensures(setup, (self,), ecs),
    {
        setup(self)
    }

    /// Gives the live entity `comp` as its component of a registered kind,
    /// and returns the value that it replaces, if the entity held one.
    pub fn insert_comp(&mut self, entity: EntityId, kind: ComponentId, comp: C) -> (prev: Option<C>)
        requires
            old(self).wf(),
            kind.id < old(self)@.values.len(),
            resolves(old(self)@.slots, entity@),
        ensures
            final(self).wf(),
            prev == if old(self)@.holds(entity@, kind.id) {
                Some(old(self)@.values[kind.id as int][entity@.idx])
            } else {
                None
            },
            final(self)@ == old(self)@.with_component(entity@, kind.id, comp),
            old(self).has_room() ==> final(self).has_room(),
    {
        let k = self.storage_id(kind);
        let ghost before = self@;
        let had = match self.entities.entry_mut(entity) {
            Some(entry) => {
                let had = entry.comp_mask().bit_is_set(k);
                entry.set_component(k);
                had
            },
            None => unreached(),
        };
        proof {
            assert(self.storages@[k as int].contents() == before.values[k as int]);
            if had {
                assert(bit(before.slots[entity@.idx as int].mask, k));
            }
        }
        let storage = &mut self.storages[k as usize];
        let prev = if had {
            Some(storage.remove_unchecked(entity))
        } else {
            None
        };
        storage.insert_unchecked(entity, comp);
        proof {
            let after = before.with_component(entity@, k, comp);
            assert(self@.slots == after.slots);
            assert(self@.values =~= after.values) by {
                assert(before.values[k as int].remove(entity@.idx).insert(entity@.idx, comp)
                    =~= before.values[k as int].insert(entity@.idx, comp));
            }
            assert forall|i: int, j: u64| 0 <= i < after.slots.len() && #[trigger] bit(
                after.slots[i].mask,
                j,
            ) implies j < after.values.len() && after.values[j as int].contains_key(i as nat) by {
                lemma_bitwise(before.slots[i].mask, 1u64 << k, j);
                lemma_single_bit(k, j);
                if i != entity@.idx || j != k {
                    assert(bit(before.slots[i].mask, j));
                }
            }
            lemma_room_kept(before.slots, after.slots);
        }
        prev
    }

    /// Takes the live entity's component of a registered kind away and
    /// returns it, or returns `None` if the entity held none.
    pub fn remove_comp(&mut self, entity: EntityId, kind: ComponentId) -> (prev: Option<C>)
        requires
            old(self).wf(),
            kind.id < old(self)@.values.len(),
            resolves(old(self)@.slots, entity@),
        ensures
            final(self).wf(),
            prev == if old(self)@.holds(entity@, kind.id) {
                Some(old(self)@.values[kind.id as int][entity@.idx])
            } else {
                None
            },
            old(self)@.holds(entity@, kind.id) ==> final(self)@ == old(self)@.without_component(
                entity@,
                kind.id,
            ),
            !old(self)@.holds(entity@, kind.id) ==> final(self)@ == old(self)@,
            old(self).has_room() ==> final(self).has_room(),
    {
        let k = self.storage_id(kind);
        let ghost before = self@;
        let had = match self.entities.entry_mut(entity) {
            Some(entry) => {
                let had = entry.comp_mask().bit_is_set(k);
                if had {
                    entry.unset_component(k);
                }
                had
            },
            None => unreached(),
        };
        if !had {
            proof {
                assert(self@.slots =~= before.slots);
                assert(self@.values =~= before.values);
            }
            return None;
        }
        proof {
            assert(self.storages@[k as int].contents() == before.values[k as int]);
            assert(bit(before.slots[entity@.idx as int].mask, k));
        }
        let prev = self.storages[k as usize].remove_unchecked(entity);
        proof {
            let after = before.without_component(entity@, k);
            assert(self@.slots == after.slots);
            assert(self@.values =~= after.values);
            assert forall|i: int, j: u64| 0 <= i < after.slots.len() && #[trigger] bit(
                after.slots[i].mask,
                j,
            ) implies j < after.values.len() && after.values[j as int].contains_key(i as nat) by {
                lemma_bitwise(before.slots[i].mask, !(1u64 << k), j);
                lemma_bitwise(1u64 << k, 0, j);
                lemma_single_bit(k, j);
                assert(bit(before.slots[i].mask, j));
            }
            lemma_room_kept(before.slots, after.slots);
        }
        Some(prev)
    }

    /// Deletes the entity if the handle resolves; a stale handle changes
    /// nothing. The entity's components stay in their storages, out of
    /// reach, until the slot's next entity replaces them.
    pub fn delete(&mut self, entity: EntityId)
        requires
            old(self).wf(),
        ensures
            final(self).wf(),
            final(self)@ == (World {
                slots: after_delete(old(self)@.slots, entity@),
                ..old(self)@
            }),
    {
        let ghost before = self@;
        self.entities.delete(entity);
        proof {
            assert(self@.values =~= before.values);
            assert forall|i: int, j: u64| 0 <= i < self@.slots.len() && #[trigger] bit(
                self@.slots[i].mask,
                j,
            ) implies j < self@.values.len() && self@.values[j as int].contains_key(i as nat) by {
                assert(bit(before.slots[i].mask, j));
            }
        }
    }

    /// Makes an entity without components, and returns a builder that gives
    /// it some.
    pub fn create(&mut self) -> (b: Entity<'_, C>)
        requires
            old(self).wf(),
            old(self).has_room(),
        ensures
            b.wf(),
            created(old(self)@.slots, b.entity@),
            b.ecs@ == (World {
                slots: after_create(old(self)@.slots, b.entity@),
                ..old(self)@
            }),
            *final(self) == *final(b.ecs),
    {
        let ghost before = self@;
        let entity = self.entities.create();
        proof {
            assert(self@.values =~= before.values);
            assert forall|i: int, j: u64| 0 <= i < self@.slots.len() && #[trigger] bit(
                self@.slots[i].mask,
                j,
            ) implies j < self@.values.len() && self@.values[j as int].contains_key(i as nat) by {
                if i == entity@.idx {
                    lemma_single_bit(0, j);
                } else {
                    assert(bit(before.slots[i].mask, j));
                }
            }
        }
        Entity { entity, ecs: self }
    }

    /// Shared access to the registry and to the storage of a registered
    /// kind.
    pub fn read_storage(&self, kind: ComponentId) -> (r: ReadStorage<'_, C>)
        requires
            self.wf(),
            kind.id < self@.values.len(),
        ensures
            r.entities.0@ == self@.slots,
            r.entities.0.wf(),
            r.storage.0.contents() == self@.values[kind.id as int],
    {
        let k = self.storage_id(kind);
        ReadStorage { entities: Read(&self.entities), storage: Read(&self.storages[k as usize]) }
    }

    /// Exclusive access to the registry and to the storage of a registered
    /// kind.
    ///
    /// What the holder leaves behind is what the store then holds. The store
    /// is well formed again if the holder has left every slot index within
    /// 32 bits and the masks true: a value in the storage wherever the
    /// kind's bit is set.
    pub fn write_storage(&mut self, kind: ComponentId) -> (r: WriteStorage<'_, C>)
        requires
            old(self).wf(),
            kind.id < old(self)@.values.len(),
        ensures
            r.entities.0@ == old(self)@.slots,
            r.entities.0.wf(),
            r.storage.0.contents() == old(self)@.values[kind.id as int],
            final(self)@ == (World {
                slots: final(r.entities.0)@,
                values: old(self)@.values.update(kind.id as int, final(r.storage.0).contents()),
                ..old(self)@
            }),
            final(r.entities.0).wf() && coherent(final(self)@) ==> final(self).wf(),
    {
        let k = self.storage_id(kind);
        let ghost before = self@;
        let ghost after = final(self)@;
        let entities = &mut self.entities;
        let storage = &mut self.storages[k as usize];
        proof {
            assert(after.values =~= before.values.update(k as int, final(storage).contents()));
        }
        WriteStorage { entities: Write(entities), storage: Write(storage) }
    }

    /// Binds a query to the store: works out the requirement that the
    /// terms make of an entity's mask, and borrows for each term the
    /// storage that it asks for.
    ///
    /// The terms must speak of registered kinds only, must not contradict
    /// each other, and must not stand in each other's way: see
    /// [`combined_filter`] and [`conflicts`](crate::query::conflicts).
    ///
    /// When the query is gone, the store holds in each kind that a term
    /// wrote what that term's guard left behind, and everything else as it
    /// was.
    pub fn query<'a>(&'a mut self, terms: &[Pattern]) -> (q: Query<'a, C>)
        requires
            old(self).wf(),
            plan(terms@, old(self)@.values.len(), terms@.len() as int) is Ok,
            !conflict(terms@),
        ensures
            bound(q, terms@, old(self)@),
            forall|k: int|
                0 <= k < terms@.len() && (#[trigger] terms@[k]) is Write ==> {
                    let kind = terms@[k]->Write_0.id as int;
                    final(self)@.values[kind] == final(q.state@[k]->Write_0.0).contents()
                },
            final(self)@.slots == old(self)@.slots,
            final(self)@.resources == old(self)@.resources,
            final(self)@.values.len() == old(self)@.values.len(),
            forall|c: int|
                0 <= c < old(self)@.values.len() && !writes(terms@, c) ==> (
                #[trigger] final(self)@.values[c]) == old(self)@.values[c],
            coherent(final(self)@) ==> final(self).wf(),
            old(self).has_room() ==> final(self).has_room(),
    {
        let filter = match combined_filter(terms, self.component_id) {
            Ok(f) => f,
            Err(_) => unreached(),
        };
        let ghost before = self@;
        let ghost kinds = self@.values.len();
        proof {
            assert forall|k: int| 0 <= k < terms@.len() implies (#[trigger] terms@[k]).registered(
                kinds,
            ) by {
                lemma_plan_registered(terms@, kinds, terms@.len() as int, k);
            }
            assert forall|c: int| 0 <= c < kinds implies self.storages@[c].contents()
                == #[trigger] before.values[c] by {}
        }
        let ghost end = *final(self);
        let ghost rows1: Seq<Place<'a, C::Storage>>;
        let ghost rows2: Seq<Place<'a, C::Storage>>;
        let entities: &'a Entities = &self.entities;
        let state = {
            let mut rows: Vec<Place<'a, C::Storage>> = Vec::new();
            places_of(self.storages.as_mut_slice(), &mut rows);
            proof {
                rows1 = rows@;
            }
            let state = acquire(&mut rows, terms);
            proof {
                rows2 = rows@;
            }
            state
        };
        proof {
            assert(end.storages@.len() == kinds);
            assert forall|c: int| 0 <= c < kinds && !writes(terms@, c) implies (
            #[trigger] end.storages@[c]).contents() == before.values[c] by {
                let row = rows2[c];
                assert(rows1[c] is Free);
                assert(*final(rows1[c]->Free_0) == end.storages@[c]);
                if row is Free {
                    assert(row == rows1[c]);
                    assert(has_resolved(row));
                }
            }
            assert(end@.values.len() == kinds);
            assert forall|c: int|
                0 <= c < kinds && !writes(terms@, c) implies #[trigger] end@.values[c]
                == before.values[c] by {
                assert(end.storages@[c].contents() == before.values[c]);
            }
            assert forall|k: int, i: int|
                0 <= k < state@.len() && 0 <= i < before.slots.len() && selects(
                    #[trigger] before.slots[i],
                    filter_view(filter),
                ) implies has_value::<C, C::Storage>(#[trigger] state@[k], i as nat) by {
                lemma_plan_matches(terms@, kinds, terms@.len() as int, before.slots[i].mask);
                assert(terms@[k].accepts(before.slots[i].mask));
                match terms@[k] {
                    Pattern::Read(c) => {
                        assert(bit(before.slots[i].mask, c.id));
                    },
                    Pattern::Write(c) => {
                        assert(bit(before.slots[i].mask, c.id));
                    },
                    _ => {},
                }
            }
        }
        assert(entities.wf());
        assert(entities@ == before.slots);
        assert(covers::<C, C::Storage>(state@, entities@, filter_view(filter)));
        Query { entities, filter, state }
    }

    /// Binds a query to the store and hands it to `sys`; returns what `sys`
    /// returns. The terms must be such as [`Ecs::query`] takes.
    ///
    /// The query that `sys` gets is the one that [`Ecs::query`] binds.
    /// Afterwards the store holds in each kind that a term wrote what that
    /// term's guard left behind; the registry, the number of resources and
    /// the kinds that no term writes are as they were, whatever `sys` does.
    pub fn run<'a, O, F: FnOnce(Query<'a, C>) -> O>(&'a mut self, terms: &[Pattern], sys: F) -> (out:
        O)
        requires
            old(self).wf(),
            plan(terms@, old(self)@.values.len(), terms@.len() as int) is Ok,
            !conflict(terms@),
            forall|q: Query<'a, C>| bound(q, terms@, old(self)@) ==> call_requires(sys, (q,)),
        ensures
            exists|q: Query<'a, C>|
                bound(q, terms@, old(self)@) && #[trigger] call_ensures(sys, (q,), out) && forall|
                    k: int,
                |
                    0 <= k < terms@.len() && (#[trigger] terms@[k]) is Write ==> {
                    let kind = terms@[k]->Write_0.id as int;
                    final(self)@.values[kind] == final(q.state@[k]->Write_0.0).contents()
                },
            final(self)@.slots == old(self)@.slots,
            final(self)@.resources == old(self)@.resources,
            final(self)@.values.len() == old(self)@.values.len(),
            forall|c: int|
                0 <= c < old(self)@.values.len() && !writes(terms@, c) ==> (
                #[trigger] final(self)@.values[c]) == old(self)@.values[c],
            coherent(final(self)@) ==> final(self).wf(),
            old(self).has_room() ==> final(self).has_room(),
    {
        let q = self.query(terms);
        let ghost handed = q;
        let out = sys(q);
        assert(call_ensures(sys, (handed,), out));
        out
    }

    /// A builder for the live entity.
    pub fn modify(&mut self, entity: EntityId) -> (b: Entity<'_, C>)
        requires
            old(self).wf(),
            resolves(old(self)@.slots, entity@),
        ensures
            b.wf(),
            b.entity == entity,
            *b.ecs == *old(self),
            *final(self) == *final(b.ecs),
    {
        Entity { entity, ecs: self }
    }
}

/// The masks do not decide whether `create` can hand out a handle: two
/// registries that agree on which slots are filled and on their
/// generations have room alike.
pub proof fn lemma_room_kept(before: Seq<Slot>, after: Seq<Slot>)
    requires
        before.len() == after.len(),
        forall|i: int|
            0 <= i < before.len() ==> (#[trigger] after[i]).filled == before[i].filled && after[i].gen
                == before[i].gen,
    ensures
        none_reusable(before) <==> none_reusable(after),
{
    if none_reusable(before) {
        assert forall|j: int| 0 <= j < after.len() implies !reusable(#[trigger] after[j]) by {
            assert(!reusable(before[j]));
        }
    }
    if none_reusable(after) {
        assert forall|j: int| 0 <= j < before.len() implies !reusable(#[trigger] before[j]) by {
            assert(!reusable(after[j]));
        }
    }
}

/// One live entity of a store, borrowed to be given components or to have
/// them taken away.
pub struct Entity<'a, C: Component> {
    /// The entity's handle.
    pub entity: EntityId,
    /// The store that the entity lives in.
    pub ecs: &'a mut Ecs<C>,
}

impl<'a, C: Component> Entity<'a, C> {
    /// The store is well formed and the entity is alive in it.
    pub open spec fn wf(&self) -> bool {
        self.ecs.wf() && resolves(self.ecs@.slots, self.entity@)
    }

    /// Gives the entity `comp` as its component of a registered kind, in
    /// place of the one it held, and hands the builder on.
    pub fn with(self, kind: ComponentId, comp: C) -> (b: Self)
        requires
            self.wf(),
            kind.id < self.ecs@.values.len(),
        ensures
            b.wf(),
            b.entity == self.entity,
            b.ecs@ == old(self.ecs)@.with_component(self.entity@, kind.id, comp),
            *final(b.ecs) == *final(self.ecs),
    {
        let mut b = self;
        b.insert(kind, comp);
        b
    }

    /// Gives the entity `comp` as its component of a registered kind, in
    /// place of the one it held.
    pub fn insert(&mut self, kind: ComponentId, comp: C)
        requires
            old(self).wf(),
            kind.id < old(self).ecs@.values.len(),
        ensures
            final(self).wf(),
            final(self).entity == old(self).entity,
            final(self).ecs@ == old(self).ecs@.with_component(old(self).entity@, kind.id, comp),
            *final(final(self).ecs) == *final(old(self).ecs),
    {
        let _ = self.ecs.insert_comp(self.entity, kind, comp);
    }

    /// Takes the entity's component of a registered kind away and returns
    /// it, or returns `None` if the entity held none.
    pub fn remove(&mut self, kind: ComponentId) -> (r: Option<C>)
        requires
            old(self).wf(),
            kind.id < old(self).ecs@.values.len(),
        ensures
            final(self).wf(),
            final(self).entity == old(self).entity,
            r == if old(self).ecs@.holds(old(self).entity@, kind.id) {
                Some(old(self).ecs@.values[kind.id as int][old(self).entity@.idx])
            } else {
                None
            },
            final(self).ecs@ == if old(self).ecs@.holds(old(self).entity@, kind.id) {
                old(self).ecs@.without_component(old(self).entity@, kind.id)
            } else {
                old(self).ecs@
            },
            *final(final(self).ecs) == *final(old(self).ecs),
    {
        self.ecs.remove_comp(self.entity, kind)
    }

    /// The entity's handle.
    pub fn id(&self) -> (e: EntityId)
        ensures
            e == self.entity,
    {
        self.entity
    }
}

} // verus!
