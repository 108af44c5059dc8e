use crate::bitmask::{filter_view, word_matches, BitMask, WIDTH};
use vstd::prelude::*;

verus! {

/// What an [`Entity`] stands for: a slot index and the generation of the
/// slot at the time the handle was made.
pub struct Id {
    pub idx: nat,
    pub gen: u32,
}

/// What the registry records of one slot.
pub struct Slot {
    /// How many times the slot has been recycled.
    pub gen: u32,
    /// Whether an entity lives in the slot.
    pub filled: bool,
    /// The word of the slot's component mask.
    pub mask: u64,
}

/// A handle to one entity. It goes stale when its entity is deleted, and
/// stays stale when the slot is used again.
#[derive(Copy, Clone, Debug, PartialEq, Eq, Structural)]
pub struct Entity {
    idx: u32,
    gen: u32,
}

impl View for Entity {
    type V = Id;

    closed spec fn view(&self) -> Id {
        Id { idx: self.idx as nat, gen: self.gen }
    }
}

impl Entity {
    /// The index of the handle's slot.
    pub fn idx(&self) -> (i: usize)
        ensures
            i == self@.idx,
    {
        self.idx as usize
    }

    /// The generation that the handle was made for.
    pub fn gen(&self) -> (g: usize)
        ensures
            g == self@.gen,
    {
        self.gen as usize
    }

    /// Every handle's index fits in 32 bits.
    pub proof fn lemma_index_bound(self)
        ensures
            self@.idx <= u32::MAX,
    {
    }

    /// Two handles with the same index and generation are the same handle.
    pub proof fn lemma_same_id(self, other: Entity)
        requires
            self@ == other@,
        ensures
            self == other,
    {
    }
}

/// The registry's record of one slot.
#[derive(Debug)]
pub struct Entry {
    gen: u32,
    filled: bool,
    comp_mask: BitMask,
}

impl View for Entry {
    type V = Slot;

    closed spec fn view(&self) -> Slot {
        Slot { gen: self.gen, filled: self.filled, mask: self.comp_mask@ }
    }
}

impl Entry {
    /// The slot's current generation.
    pub fn gen(&self) -> (g: u32)
        ensures
            g == self@.gen,
    {
        self.gen
    }

    /// Whether an entity lives in the slot.
    pub fn is_filled(&self) -> (b: bool)
        ensures
            b == self@.filled,
    {
        self.filled
    }

    /// The components that the slot's entity holds.
    pub fn comp_mask(&self) -> (m: &BitMask)
        ensures
            m@ == self@.mask,
    {
        &self.comp_mask
    }

    /// Records that the entity holds component `x`.
    pub(crate) fn set_component(&mut self, x: u64)
        requires
            x < WIDTH,
        ensures
            final(self)@ == (Slot { mask: old(self)@.mask | (1u64 << x), ..old(self)@ }),
    {
        self.comp_mask.set_bit(x);
    }

    /// Records that the entity does not hold component `x`.
    pub(crate) fn unset_component(&mut self, x: u64)
        requires
            x < WIDTH,
        ensures
            final(self)@ == (Slot { mask: old(self)@.mask & !(1u64 << x), ..old(self)@ }),
    {
        self.comp_mask.unset_bit(x);
    }
}

/// A slot that `create` may use again: empty, with a generation that can
/// still grow.
pub open spec fn reusable(slot: Slot) -> bool {
    !slot.filled && slot.gen < u32::MAX
}

/// Whether `i` is the first reusable slot of `s`.
pub open spec fn first_reusable(s: Seq<Slot>, i: int) -> bool {
    &&& 0 <= i < s.len()
    &&& reusable(s[i])
    &&& forall|j: int| 0 <= j < i ==> !reusable(#[trigger] s[j])
}

/// Whether `s` has no reusable slot.
pub open spec fn none_reusable(s: Seq<Slot>) -> bool {
    forall|j: int| 0 <= j < s.len() ==> !reusable(#[trigger] s[j])
}

/// The record of a slot that an entity of generation `gen` has just moved
/// into: filled, with no components.
pub open spec fn fresh_slot(gen: u32) -> Slot {
    Slot { gen, filled: true, mask: 0 }
}

/// Whether a handle resolves: its slot exists, is filled, and has the
/// handle's generation.
pub open spec fn resolves(s: Seq<Slot>, id: Id) -> bool {
    &&& id.idx < s.len()
    &&& s[id.idx as int].filled
    &&& s[id.idx as int].gen == id.gen
}

/// The registry after `create` has returned `id` on the registry `before`:
/// the first reusable slot, one generation on; or, where there is none, a
/// new slot of generation 0 at the end.
pub open spec fn after_create(before: Seq<Slot>, id: Id) -> Seq<Slot> {
    if id.idx < before.len() {
        before.update(id.idx as int, fresh_slot(id.gen))
    } else {
        before.push(fresh_slot(id.gen))
    }
}

/// Which handle `create` returns on the registry `before`.
pub open spec fn created(before: Seq<Slot>, id: Id) -> bool {
    if none_reusable(before) {
        id.idx == before.len() && id.gen == 0
    } else {
        first_reusable(before, id.idx as int) && id.gen == before[id.idx as int].gen + 1
    }
}

/// The registry after `delete` of `id`: the slot is emptied if the handle
/// resolves, and nothing changes otherwise.
pub open spec fn after_delete(before: Seq<Slot>, id: Id) -> Seq<Slot> {
    if resolves(before, id) {
        before.update(id.idx as int, Slot { filled: false, ..before[id.idx as int] })
    } else {
        before
    }
}

/// Whether a filtered walk yields the slot: it is filled and its mask meets
/// the requirement `f`.
pub open spec fn selects(slot: Slot, f: (u64, u64)) -> bool {
    slot.filled && word_matches(slot.mask, f.0, f.1)
}

/// The handles that a filtered walk yields from slot `from` on, in the
/// order of their slots.
pub open spec fn matching_from(s: Seq<Slot>, f: (u64, u64), from: int) -> Seq<Id>
    decreases s.len() - from,
{
    if from < 0 || from >= s.len() {
        Seq::empty()
    } else if selects(s[from], f) {
        seq![Id { idx: from as nat, gen: s[from].gen }] + matching_from(s, f, from + 1)
    } else {
        matching_from(s, f, from + 1)
    }
}

/// The handles that a filtered walk of the whole registry yields.
pub open spec fn matching(s: Seq<Slot>, f: (u64, u64)) -> Seq<Id> {
    matching_from(s, f, 0)
}

/// The generational slot registry. Its view is the sequence of its slots.
pub struct Entities {
    entities: Vec<Entry>,
}

impl View for Entities {
    type V = Seq<Slot>;

    closed spec fn view(&self) -> Seq<Slot> {
        self.entities@.map_values(|e: Entry| e@)
    }
}

impl Default for Entities {
    fn default() -> (r: Self)
        ensures
            r@ == Seq::<Slot>::empty(),
            r.wf(),
    {
        Entities::new()
    }
}

impl Entities {
    /// Every slot index fits in 32 bits.
    pub open spec fn wf(&self) -> bool {
        self@.len() <= 0x1_0000_0000
    }

    /// Whether `create` can hand out a handle: some slot can be used again,
    /// or the index of a new one still fits in 32 bits.
    pub open spec fn has_room(&self) -> bool {
        !none_reusable(self@) || self@.len() <= u32::MAX
    }

    /// A registry without slots.
    pub fn new() -> (r: Self)
        ensures
            r@ == Seq::<Slot>::empty(),
            r.wf(),
    {
        let r = Entities { entities: Vec::new() };
        assert(r@ =~= Seq::<Slot>::empty());
        r
    }

    /// The number of slots, live or not.
    pub fn len(&self) -> (n: usize)
        ensures
            n == self@.len(),
    {
        self.entities.len()
    }

    /// Whether `create` can hand out a handle.
    pub fn can_create(&self) -> (b: bool)
        ensures
            b == self.has_room(),
    {
        let n = self.entities.len();
        if n <= u32::MAX as usize {
            return true;
        }
        let mut i: usize = 0;
        while i < n
            invariant
                i <= n,
                n == self.entities.len(),
                forall|j: int| 0 <= j < i ==> !reusable(#[trigger] self@[j]),
            decreases n - i,
        {
            if self.entities[i].gen < u32::MAX && !self.entities[i].filled {
                assert(reusable(self@[i as int]));
                return true;
            }
            i += 1;
        }
        false
    }

    /// Makes an entity without components and returns its handle. The
    /// first slot that is empty and whose generation can still grow is used
    /// again, one generation on; where there is none, a slot of generation 0
    /// is added at the end.
    pub fn create(&mut self) -> (e: Entity)
        requires
            old(self).wf(),
            old(self).has_room(),
        ensures
            created(old(self)@, e@),
            final(self)@ == after_create(old(self)@, e@),
            final(self).wf(),
    {
        let n = self.entities.len();
        let mut i: usize = 0;
        while i < n
            invariant
                i <= n,
                n == self.entities.len(),
                *self == *old(self),
                self.wf(),
                forall|j: int| 0 <= j < i ==> !reusable(#[trigger] self@[j]),
            decreases n - i,
        {
            let gen = self.entities[i].gen;
            if gen < u32::MAX && !self.entities[i].filled {
                assert(reusable(self@[i as int]));
                self.entities[i] = Entry { gen: gen + 1, filled: true, comp_mask: BitMask::zero() };
                let e = Entity { idx: i as u32, gen: gen + 1 };
                assert(self@ =~= after_create(old(self)@, e@));
                return e;
            }
            assert(!reusable(self@[i as int]));
            i += 1;
        }
        self.entities.push(Entry { gen: 0, filled: true, comp_mask: BitMask::zero() });
        let e = Entity { idx: n as u32, gen: 0 };
        assert(self@ =~= after_create(old(self)@, e@));
        e
    }

    /// Empties the entity's slot if the handle resolves. A stale handle, or
    /// one whose entity was already deleted, changes nothing.
    pub fn delete(&mut self, entity: Entity)
        ensures
            final(self)@ == after_delete(old(self)@, entity@),
            old(self).wf() ==> final(self).wf(),
    {
        let i = entity.idx as usize;
        if i < self.entities.len() {
            if self.entities[i].filled && self.entities[i].gen == entity.gen {
                let mask = self.entities[i].comp_mask;
                self.entities[i] = Entry { gen: entity.gen, filled: false, comp_mask: mask };
            }
        }
        assert(self@ =~= after_delete(old(self)@, entity@));
    }

    /// The record of the entity's slot, if the handle resolves.
    pub fn entry(&self, entity: Entity) -> (r: Option<&Entry>)
        ensures
            r is Some <==> resolves(self@, entity@),
            r is Some ==> r->Some_0@ == self@[entity@.idx as int],
    {
        let i = entity.idx as usize;
        if i < self.entities.len() {
            let entry = &self.entities[i];
            if entry.filled && entry.gen == entity.gen {
                return Some(entry);
            }
        }
        None
    }

    /// The record of the entity's slot, to be changed, if the handle
    /// resolves.
    pub(crate) fn entry_mut(&mut self, entity: Entity) -> (r: Option<&mut Entry>)
        ensures
            r is Some <==> resolves(old(self)@, entity@),
            r is Some ==> r->Some_0@ == old(self)@[entity@.idx as int],
            r is Some ==> final(self)@ == old(self)@.update(
                entity@.idx as int,
                final(r->Some_0)@,
            ),
            r is None ==> final(self)@ == old(self)@,
    {
        let i = entity.idx as usize;
        if i < self.entities.len() {
            if self.entities[i].filled && self.entities[i].gen == entity.gen {
                let entry = &mut self.entities[i];
                return Some(entry);
            }
        }
        None
    }

    /// The components that the entity holds, if the handle resolves.
    pub fn comp_mask(&self, entity: Entity) -> (r: Option<&BitMask>)
        ensures
            r is Some <==> resolves(self@, entity@),
            r is Some ==> r->Some_0@ == self@[entity@.idx as int].mask,
    {
        match self.entry(entity) {
            Some(entry) => Some(entry.comp_mask()),
            None => None,
        }
    }

    /// A walk over the live entities whose masks meet `filter`, in the order
    /// of their slots. Nothing is looked at until the walk is advanced, and
    /// a second call starts a new walk.
    pub fn iter_filter<'a>(&'a self, filter: &(BitMask, BitMask)) -> (it: EntityIter<'a>)
        requires
            self.wf(),
        ensures
            it.wf(),
            it.slots() == self@,
            it.filter() == filter_view(*filter),
            it.remaining() == matching(self@, filter_view(*filter)),
    {
        EntityIter { entities: self, filter: *filter, pos: 0 }
    }
}

/// A filtered walk over a registry: see [`Entities::iter_filter`].
pub struct EntityIter<'a> {
    entities: &'a Entities,
    filter: (BitMask, BitMask),
    pos: usize,
}

impl<'a> EntityIter<'a> {
    /// The registry that is being walked.
    pub closed spec fn slots(&self) -> Seq<Slot> {
        self.entities@
    }

    /// The requirement that the walk selects by.
    pub closed spec fn filter(&self) -> (u64, u64) {
        filter_view(self.filter)
    }

    /// The handles that the walk has yet to yield, in order.
    pub closed spec fn remaining(&self) -> Seq<Id> {
        matching_from(self.entities@, filter_view(self.filter), self.pos as int)
    }

    /// The walk is over a well-formed registry.
    pub closed spec fn wf(&self) -> bool {
        self.entities.wf()
    }

    /// What is left of the walk is a tail of the whole walk: the handles
    /// of `matching` from some slot on.
    pub proof fn lemma_remaining(&self) -> (from: int)
        ensures
            self.remaining() == matching_from(self.slots(), self.filter(), from),
            0 <= from,
    {
        self.pos as int
    }

    /// Yields the next handle of the walk, or `None` when the walk is over.
    pub fn next(&mut self) -> (r: Option<Entity>)
        requires
            old(self).wf(),
        ensures
            final(self).wf(),
            final(self).slots() == old(self).slots(),
            final(self).filter() == old(self).filter(),
            old(self).remaining().len() == 0 ==> r is None && final(self).remaining().len() == 0,
            old(self).remaining().len() > 0 ==> r is Some && r->Some_0@ == old(self).remaining()[0]
                && final(self).remaining() == old(self).remaining().drop_first(),
    {
        let n = self.entities.entities.len();
        while self.pos < n
            invariant
                n == self.entities.entities.len(),
                self.entities == old(self).entities,
                self.filter == old(self).filter,
                self.entities.wf(),
                self.remaining() == old(self).remaining(),
            decreases n - self.pos,
        {
            let i = self.pos;
            let entry = &self.entities.entities[i];
            self.pos = i + 1;
            if entry.filled && entry.comp_mask.matches(&self.filter) {
                let e = Entity { idx: i as u32, gen: entry.gen };
                assert(old(self).remaining() =~= seq![e@] + self.remaining());
                assert(self.remaining() =~= old(self).remaining().drop_first());
                return Some(e);
            }
        }
        None
    }
}

/// A deleted entity's handle is stale at once. When `create` then uses the
/// slot again, the new handle has the next generation and resolves, and the
/// old handle stays stale.
pub proof fn lemma_recycling(s: Seq<Slot>, old_id: Id, new_id: Id)
    requires
        resolves(s, old_id),
        created(after_delete(s, old_id), new_id),
        new_id.idx == old_id.idx,
    ensures
        !resolves(after_delete(s, old_id), old_id),
        new_id.gen == old_id.gen + 1,
        resolves(after_create(after_delete(s, old_id), new_id), new_id),
        !resolves(after_create(after_delete(s, old_id), new_id), old_id),
{
}

/// A slot's generation never falls: `create` and `delete` leave it alone or
/// raise it, and `create` raises it only on the slot that it uses again.
pub proof fn lemma_generation_monotonic(s: Seq<Slot>, id: Id, i: int)
    requires
        0 <= i < s.len(),
    ensures
        after_delete(s, id).len() == s.len(),
        after_delete(s, id)[i].gen == s[i].gen,
        created(s, id) ==> after_create(s, id).len() >= s.len() && after_create(s, id)[i].gen
            >= s[i].gen && (after_create(s, id)[i].gen > s[i].gen ==> i == id.idx),
{
}

/// Membership in a filtered walk: a handle is yielded from slot `from` on
/// exactly when its slot is at or after `from`, the handle resolves, and the
/// slot's mask meets the requirement.
pub proof fn lemma_matching_contains(s: Seq<Slot>, f: (u64, u64), from: int, id: Id)
    requires
        0 <= from,
    ensures
        matching_from(s, f, from).contains(id) <==> from <= id.idx && resolves(s, id)
            && word_matches(s[id.idx as int].mask, f.0, f.1),
    decreases s.len() - from,
{
    if from < s.len() {
        lemma_matching_contains(s, f, from + 1, id);
        let rest = matching_from(s, f, from + 1);
        if selects(s[from], f) {
            let head = Id { idx: from as nat, gen: s[from].gen };
            let all = seq![head] + rest;
            assert(all[0] == head);
            assert forall|k: int| 0 <= k < rest.len() implies all[k + 1] == rest[k] by {}
            if all.contains(id) {
                let k = choose|k: int| 0 <= k < all.len() && all[k] == id;
                if k > 0 {
                    assert(rest[k - 1] == id);
                }
            }
            if rest.contains(id) {
                let k = choose|k: int| 0 <= k < rest.len() && rest[k] == id;
                assert(all[k + 1] == id);
            }
        }
    }
}

/// A filtered walk yields its handles by rising slot index, so none comes
/// twice.
pub proof fn lemma_matching_sorted(s: Seq<Slot>, f: (u64, u64), from: int, i: int, j: int)
    requires
        0 <= from,
        0 <= i < j < matching_from(s, f, from).len(),
    ensures
        from <= matching_from(s, f, from)[i].idx < matching_from(s, f, from)[j].idx,
    decreases s.len() - from,
{
    if from < s.len() {
        let rest = matching_from(s, f, from + 1);
        if selects(s[from], f) {
            let head = Id { idx: from as nat, gen: s[from].gen };
            let all = seq![head] + rest;
            assert(all[j] == rest[j - 1]);
            if i == 0 {
                assert(rest.contains(rest[j - 1]));
                lemma_matching_contains(s, f, from + 1, rest[j - 1]);
            } else {
                assert(all[i] == rest[i - 1]);
                lemma_matching_sorted(s, f, from + 1, i - 1, j - 1);
            }
        } else {
            lemma_matching_sorted(s, f, from + 1, i, j);
        }
    }
}

} // verus!
