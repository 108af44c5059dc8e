use crate::bitmask::{
    bit, compatible, filter_view, lemma_merged_matches, lemma_single_requirements, merged,
    word_matches, BitMask, WIDTH,
};
use crate::component::{Component, ComponentId};
use crate::ecs::Error;
use crate::entity::Entity as EntityId;
use crate::entity::{lemma_matching_contains, matching, resolves, selects, Entities, EntityIter, Id};
use crate::row::{Place, Read, Write};
use crate::storage::Storage;
use vstd::prelude::*;

verus! {

/// One term of a query. A query is a sequence of terms, and asks for the
/// entities that meet all of them.
#[derive(Clone, Copy, Debug, PartialEq, Eq, Structural)]
pub enum Pattern {
    /// The entity holds the kind; its value is read.
    Read(ComponentId),
    /// The entity holds the kind; its value may be changed.
    Write(ComponentId),
    /// The entity does not hold the kind.
    Not(ComponentId),
    /// Any entity; its handle is given.
    Entity,
}

impl Pattern {
    /// The component kind that the term speaks of, if any.
    pub open spec fn kind(self) -> Option<u64> {
        match self {
            Pattern::Read(c) => Some(c.id),
            Pattern::Write(c) => Some(c.id),
            Pattern::Not(c) => Some(c.id),
            Pattern::Entity => None,
        }
    }

    /// Whether the term speaks only of kinds below `kinds`.
    pub open spec fn registered(self, kinds: nat) -> bool {
        self.kind() is Some ==> self.kind()->Some_0 < kinds
    }

    /// Whether an entity whose mask is the word `w` meets the term.
    pub open spec fn accepts(self, w: u64) -> bool {
        match self {
            Pattern::Read(c) => bit(w, c.id),
            Pattern::Write(c) => bit(w, c.id),
            Pattern::Not(c) => !bit(w, c.id),
            Pattern::Entity => true,
        }
    }

    /// The term's requirement on a mask, as a pair `(check, mask)`.
    pub open spec fn filter(self) -> (u64, u64) {
        match self {
            Pattern::Read(c) => (1u64 << c.id, 1u64 << c.id),
            Pattern::Write(c) => (1u64 << c.id, 1u64 << c.id),
            Pattern::Not(c) => (0, 1u64 << c.id),
            Pattern::Entity => (0, 0),
        }
    }

    /// The term's requirement on a mask, in a store with `kinds` registered
    /// kinds. Refused where the term speaks of a kind that is not
    /// registered.
    pub fn comp_filter(&self, kinds: u64) -> (r: Result<(BitMask, BitMask), Error>)
        requires
            kinds <= WIDTH,
        ensures
            self.registered(kinds as nat) ==> r is Ok && filter_view(r->Ok_0) == self.filter(),
            !self.registered(kinds as nat) ==> r == Err::<(BitMask, BitMask), Error>(
                Error::MissingStorage,
            ),
    {
        match *self {
            Pattern::Read(c) | Pattern::Write(c) => {
                if c.id >= kinds {
                    Err(Error::MissingStorage)
                } else {
                    let mask = BitMask::with(c.id);
                    Ok((mask, mask))
                }
            },
            Pattern::Not(c) => {
                if c.id >= kinds {
                    Err(Error::MissingStorage)
                } else {
                    Ok((BitMask::zero(), BitMask::with(c.id)))
                }
            },
            Pattern::Entity => Ok((BitMask::zero(), BitMask::zero())),
        }
    }
}

/// The requirement of the first `n` terms together, in a store with `kinds`
/// registered kinds. The terms are taken in order; each must be registered
/// and must not contradict the terms before it.
pub open spec fn plan(terms: Seq<Pattern>, kinds: nat, n: int) -> Result<(u64, u64), Error>
    decreases n,
{
    if n <= 0 {
        Ok((0, 0))
    } else {
        match plan(terms, kinds, n - 1) {
            Err(e) => Err(e),
            Ok(f) => if !terms[n - 1].registered(kinds) {
                Err(Error::MissingStorage)
            } else if !compatible(f, terms[n - 1].filter()) {
                Err(Error::IncompatibleFilter)
            } else {
                Ok(merged(f, terms[n - 1].filter()))
            },
        }
    }
}

/// The requirement of all of `terms` together: see [`plan`].
pub fn combined_filter(terms: &[Pattern], kinds: u64) -> (r: Result<(BitMask, BitMask), Error>)
    requires
        kinds <= WIDTH,
    ensures
        match plan(terms@, kinds as nat, terms@.len() as int) {
            Ok(f) => r is Ok && filter_view(r->Ok_0) == f,
            Err(e) => r == Err::<(BitMask, BitMask), Error>(e),
        },
{
    let mut filter = (BitMask::zero(), BitMask::zero());
    let mut i: usize = 0;
    while i < terms.len()
        invariant
            i <= terms@.len(),
            kinds <= WIDTH,
            plan(terms@, kinds as nat, i as int) == Ok::<(u64, u64), Error>(filter_view(filter)),
        decreases terms@.len() - i,
    {
        let term_filter = match terms[i].comp_filter(kinds) {
            Ok(f) => f,
            Err(e) => {
                proof {
                    lemma_plan_error_stays(terms@, kinds as nat, i as int + 1, terms@.len() as int);
                }
                return Err(e);
            },
        };
        filter = match BitMask::combine_filters(filter, term_filter) {
            Some(f) => f,
            None => {
                proof {
                    lemma_plan_error_stays(terms@, kinds as nat, i as int + 1, terms@.len() as int);
                }
                return Err(Error::IncompatibleFilter);
            },
        };
        i += 1;
    }
    Ok(filter)
}

/// Once a prefix of the terms is refused, every longer prefix is refused
/// for the same reason.
pub proof fn lemma_plan_error_stays(terms: Seq<Pattern>, kinds: nat, n: int, m: int)
    requires
        0 <= n <= m,
        plan(terms, kinds, n) is Err,
    ensures
        plan(terms, kinds, m) == plan(terms, kinds, n),
    decreases m - n,
{
    if n < m {
        lemma_plan_error_stays(terms, kinds, n, m - 1);
    }
}

/// A requirement is made only of terms that speak of registered kinds.
pub proof fn lemma_plan_registered(terms: Seq<Pattern>, kinds: nat, n: int, k: int)
    requires
        0 <= k < n <= terms.len(),
        plan(terms, kinds, n) is Ok,
    ensures
        terms[k].registered(kinds),
    decreases n,
{
    if k < n - 1 {
        lemma_plan_registered(terms, kinds, n - 1, k);
    }
}

/// What a term's requirement asks of a mask is what the term says: the
/// kind's bit set, the kind's bit clear, or nothing.
pub proof fn lemma_term_filter(t: Pattern, w: u64)
    requires
        t.registered(WIDTH as nat),
    ensures
        word_matches(w, t.filter().0, t.filter().1) <==> t.accepts(w),
{
    match t {
        Pattern::Read(c) => lemma_single_requirements(w, c.id),
        Pattern::Write(c) => lemma_single_requirements(w, c.id),
        Pattern::Not(c) => lemma_single_requirements(w, c.id),
        Pattern::Entity => lemma_single_requirements(w, 0),
    }
}

/// The combined requirement of some terms is met by exactly the masks that
/// meet every one of the terms.
pub proof fn lemma_plan_matches(terms: Seq<Pattern>, kinds: nat, n: int, w: u64)
    requires
        0 <= n <= terms.len(),
        kinds <= WIDTH,
        plan(terms, kinds, n) is Ok,
    ensures
        word_matches(w, plan(terms, kinds, n)->Ok_0.0, plan(terms, kinds, n)->Ok_0.1)
            <==> forall|i: int| 0 <= i < n ==> (#[trigger] terms[i]).accepts(w),
    decreases n,
{
    if n == 0 {
        lemma_single_requirements(w, 0);
    } else {
        let f = plan(terms, kinds, n - 1)->Ok_0;
        let t = terms[n - 1];
        lemma_plan_matches(terms, kinds, n - 1, w);
        lemma_term_filter(t, w);
        lemma_merged_matches(f, t.filter(), w);
        if forall|i: int| 0 <= i < n ==> (#[trigger] terms[i]).accepts(w) {
            assert(t.accepts(w));
            assert(forall|i: int| 0 <= i < n - 1 ==> (#[trigger] terms[i]).accepts(w));
        }
        if word_matches(w, f.0, f.1) && t.accepts(w) {
            assert forall|i: int| 0 <= i < n implies (#[trigger] terms[i]).accepts(w) by {
                if i < n - 1 {
                } else {
                    assert(terms[i] == t);
                }
            }
        }
    }
}

/// A combined requirement can always be met: its own `check` word meets it.
pub proof fn lemma_plan_satisfiable(terms: Seq<Pattern>, kinds: nat, n: int)
    requires
        0 <= n <= terms.len(),
        kinds <= WIDTH,
        plan(terms, kinds, n) is Ok,
    ensures
        word_matches(
            plan(terms, kinds, n)->Ok_0.0,
            plan(terms, kinds, n)->Ok_0.0,
            plan(terms, kinds, n)->Ok_0.1,
        ),
    decreases n,
{
    if n == 0 {
        lemma_single_requirements(0, 0);
    } else {
        let f = plan(terms, kinds, n - 1)->Ok_0;
        let g = terms[n - 1].filter();
        lemma_plan_satisfiable(terms, kinds, n - 1);
        let (fc, fm) = f;
        let (gc, gm) = g;
        assert(fc & fm == fc && (fc | gc) & fm == fc && (fc | gc) & gm == gc ==> (fc | gc) & (fm
            | gm) == (fc | gc)) by (bit_vector);
    }
}

/// Terms that contradict each other are refused: where all terms speak of
/// registered kinds, and one asks for a kind that another forbids, no
/// requirement is made of them, and the reason given is the contradiction.
pub proof fn lemma_contradiction_refused(terms: Seq<Pattern>, kinds: nat, i: int, j: int)
    requires
        kinds <= WIDTH,
        forall|k: int| 0 <= k < terms.len() ==> (#[trigger] terms[k]).registered(kinds),
        0 <= i < terms.len(),
        0 <= j < terms.len(),
        terms[i] is Read || terms[i] is Write,
        terms[j] is Not,
        terms[i].kind() == terms[j].kind(),
    ensures
        plan(terms, kinds, terms.len() as int) == Err::<(u64, u64), Error>(
            Error::IncompatibleFilter,
        ),
{
    let n = terms.len() as int;
    lemma_plan_only_contradicts(terms, kinds, n);
    if plan(terms, kinds, n) is Ok {
        let w = plan(terms, kinds, n)->Ok_0.0;
        lemma_plan_satisfiable(terms, kinds, n);
        lemma_plan_matches(terms, kinds, n, w);
        assert(terms[i].accepts(w));
        assert(terms[j].accepts(w));
    }
}

/// Where all terms speak of registered kinds, the only reason to refuse
/// them is a contradiction.
pub proof fn lemma_plan_only_contradicts(terms: Seq<Pattern>, kinds: nat, n: int)
    requires
        0 <= n <= terms.len(),
        forall|k: int| 0 <= k < terms.len() ==> (#[trigger] terms[k]).registered(kinds),
    ensures
        plan(terms, kinds, n) is Err ==> plan(terms, kinds, n) == Err::<(u64, u64), Error>(
            Error::IncompatibleFilter,
        ),
    decreases n,
{
    if n > 0 {
        lemma_plan_only_contradicts(terms, kinds, n - 1);
    }
}

/// A query yields exactly the live entities that meet every one of its
/// terms: those that hold each kind that a term reads or writes, and lack
/// each kind that a term forbids.
pub proof fn lemma_query_selects(
    terms: Seq<Pattern>,
    kinds: nat,
    slots: Seq<crate::entity::Slot>,
    id: Id,
)
    requires
        kinds <= WIDTH,
        plan(terms, kinds, terms.len() as int) is Ok,
    ensures
        matching(slots, plan(terms, kinds, terms.len() as int)->Ok_0).contains(id) <==> resolves(
            slots,
            id,
        ) && forall|k: int|
            0 <= k < terms.len() ==> (#[trigger] terms[k]).accepts(slots[id.idx as int].mask),
{
    let f = plan(terms, kinds, terms.len() as int)->Ok_0;
    lemma_matching_contains(slots, f, 0, id);
    if id.idx < slots.len() {
        lemma_plan_matches(terms, kinds, terms.len() as int, slots[id.idx as int].mask);
    }
}

/// Terms that borrow different kinds never stand in each other's way, and
/// neither do readers of one kind.
pub proof fn lemma_no_conflict(terms: Seq<Pattern>)
    requires
        forall|i: int, j: int|
            0 <= i < j < terms.len() && (#[trigger] terms[i]).borrows() is Some && terms[i].borrows()
                == (#[trigger] terms[j]).borrows() ==> terms[i] is Read && terms[j] is Read,
    ensures
        !conflict(terms),
{
    if conflict(terms) {
        let (i, j) = choose|i: int, j: int| conflict_at(terms, i, j);
        assert(terms[i].borrows() == terms[j].borrows());
    }
}

/// A term that writes a kind stands in the way of every other term that
/// reads or writes the same kind.
pub proof fn lemma_writer_conflicts(terms: Seq<Pattern>, i: int, j: int)
    requires
        0 <= i < terms.len(),
        0 <= j < terms.len(),
        i != j,
        terms[i] is Write,
        terms[j].borrows() == terms[i].borrows(),
    ensures
        conflict(terms),
{
    if i < j {
        assert(conflict_at(terms, i, j));
    } else {
        assert(conflict_at(terms, j, i));
    }
}

/// What a query holds for one of its terms.
pub enum Fetched<'a, S> {
    /// Shared access to the storage of the term's kind.
    Read(Read<'a, S>),
    /// Exclusive access to the storage of the term's kind.
    Write(Write<'a, S>),
    /// Nothing: the term asks that a kind be absent.
    Nothing,
    /// Nothing: the term asks for the entity's handle.
    Entity,
}

impl Pattern {
    /// The kind whose storage the term borrows, if it borrows one.
    pub open spec fn borrows(self) -> Option<u64> {
        match self {
            Pattern::Read(c) => Some(c.id),
            Pattern::Write(c) => Some(c.id),
            _ => None,
        }
    }
}

/// Whether the terms at `i` and `j` cannot both be served: they borrow the
/// same kind's storage, and one of them writes.
pub open spec fn conflict_at(terms: Seq<Pattern>, i: int, j: int) -> bool {
    &&& 0 <= i < j < terms.len()
    &&& terms[i].borrows() is Some
    &&& terms[i].borrows() == terms[j].borrows()
    &&& (terms[i] is Write || terms[j] is Write)
}

/// Whether some two of the terms cannot both be served.
pub open spec fn conflict(terms: Seq<Pattern>) -> bool {
    exists|i: int, j: int| conflict_at(terms, i, j)
}

/// Whether some term writes the storage of kind `c`.
pub open spec fn writes(terms: Seq<Pattern>, c: int) -> bool {
    exists|k: int|
        0 <= k < terms.len() && #[trigger] terms[k] == Pattern::Write(
            ComponentId { id: c as u64 },
        )
}

impl Pattern {
    /// The kind whose storage the term borrows, if it borrows one.
    pub fn borrowed(&self) -> (r: Option<u64>)
        ensures
            r == self.borrows(),
    {
        match *self {
            Pattern::Read(c) => Some(c.id),
            Pattern::Write(c) => Some(c.id),
            _ => None,
        }
    }

    /// Whether the term writes.
    pub fn is_write(&self) -> (b: bool)
        ensures
            b == (*self is Write),
    {
        match *self {
            Pattern::Write(_) => true,
            _ => false,
        }
    }
}

/// Whether some two of the terms cannot both be served: they borrow the
/// same kind's storage, and one of them writes.
pub fn conflicts(terms: &[Pattern]) -> (b: bool)
    ensures
        b == conflict(terms@),
{
    let mut j: usize = 0;
    while j < terms.len()
        invariant
            j <= terms@.len(),
            forall|a: int, b: int| 0 <= a < b < j ==> !conflict_at(terms@, a, b),
        decreases terms@.len() - j,
    {
        let later = terms[j].borrowed();
        if later.is_some() {
            let mut i: usize = 0;
            while i < j
                invariant
                    i <= j < terms@.len(),
                    later == terms@[j as int].borrows(),
                    later is Some,
                    forall|a: int| 0 <= a < i ==> !conflict_at(terms@, a, j as int),
                decreases j - i,
            {
                let earlier = terms[i].borrowed();
                if earlier.is_some() && earlier.unwrap() == later.unwrap() && (terms[i].is_write()
                    || terms[j].is_write()) {
                    assert(conflict_at(terms@, i as int, j as int));
                    return true;
                }
                i += 1;
            }
        }
        j += 1;
    }
    proof {
        if conflict(terms@) {
            let (a, b) = choose|a: int, b: int| conflict_at(terms@, a, b);
            assert(!conflict_at(terms@, a, b));
        }
    }
    false
}

/// Borrows from the places what each term asks for, in the order of the
/// terms: shared access for a reading term, exclusive access for a writing
/// one, nothing for the others.
pub fn acquire<'a, S>(rows: &mut Vec<Place<'a, S>>, terms: &[Pattern]) -> (r: Vec<Fetched<'a, S>>)
    requires
        forall|i: int| 0 <= i < old(rows)@.len() ==> (#[trigger] old(rows)@[i]) is Free,
        forall|k: int|
            0 <= k < terms@.len() ==> (#[trigger] terms@[k]).registered(old(rows)@.len()),
        old(rows)@.len() <= WIDTH,
        !conflict(terms@),
    ensures
        final(rows)@.len() == old(rows)@.len(),
        forall|i: int|
            0 <= i < old(rows)@.len() ==> {
                let before = old(rows)@[i];
                let after = #[trigger] final(rows)@[i];
                &&& after is Free ==> after == before
                &&& after is Shared ==> *after->Shared_0 == *before->Free_0 && *final(before->Free_0)
                    == *before->Free_0
                &&& after is Taken <==> writes(terms@, i)
            },
        r@.len() == terms@.len(),
        forall|k: int|
            0 <= k < terms@.len() ==> match #[trigger] terms@[k] {
                Pattern::Read(c) => {
                    let lent = old(rows)@[c.id as int]->Free_0;
                    &&& r@[k] is Read
                    &&& *r@[k]->Read_0.0 == *lent
                },
                Pattern::Write(c) => {
                    let lent = old(rows)@[c.id as int]->Free_0;
                    let guard = r@[k]->Write_0;
                    &&& r@[k] is Write
                    &&& *guard.0 == *lent
                    &&& *final(guard.0) == *final(lent)
                },
                Pattern::Not(_) => r@[k] is Nothing,
                Pattern::Entity => r@[k] is Entity,
            },
{
    let ghost rows0 = rows@;
    let ghost mut writer: Map<int, int> = Map::empty();
    let ghost mut reader: Map<int, int> = Map::empty();
    let mut state: Vec<Fetched<'a, S>> = Vec::new();
    let mut k: usize = 0;
    while k < terms.len()
        invariant
            k <= terms@.len(),
            rows@.len() == rows0.len(),
            rows0.len() <= WIDTH,
            rows0 == old(rows)@,
            !conflict(terms@),
            state@.len() == k,
            forall|i: int| 0 <= i < rows0.len() ==> (#[trigger] rows0[i]) is Free,
            forall|j: int| 0 <= j < terms@.len() ==> (#[trigger] terms@[j]).registered(rows0.len()),
            forall|i: int|
                0 <= i < rows0.len() && (#[trigger] rows@[i]) is Free ==> rows@[i] == rows0[i],
            forall|i: int, j: int|
                0 <= i < rows0.len() && 0 <= j < k && (#[trigger] rows@[i]) is Free ==> (
                #[trigger] terms@[j]).borrows() != Some(i as u64),
            forall|i: int|
                0 <= i < rows0.len() && (#[trigger] rows@[i]) is Shared ==> *rows@[i]->Shared_0
                    == *rows0[i]->Free_0 && *final(rows0[i]->Free_0) == *rows0[i]->Free_0
                    && reader.contains_key(i) && 0 <= reader[i] < k && terms@[reader[i]]
                    == Pattern::Read(ComponentId { id: i as u64 }),
            forall|i: int, j: int|
                0 <= i < rows0.len() && 0 <= j < k && (#[trigger] rows@[i]) is Shared && (
                #[trigger] terms@[j]).borrows() == Some(i as u64) ==> terms@[j] is Read,
            forall|i: int|
                0 <= i < rows0.len() && (#[trigger] rows@[i]) is Taken ==> writer.contains_key(i)
                    && 0 <= writer[i] < k && terms@[writer[i]] == Pattern::Write(
                    ComponentId { id: i as u64 },
                ),
            forall|j: int|
                0 <= j < k ==> match #[trigger] terms@[j] {
                    Pattern::Read(c) => state@[j] is Read && *state@[j]->Read_0.0
                        == *rows0[c.id as int]->Free_0,
                    Pattern::Write(c) => {
                        let lent = rows0[c.id as int]->Free_0;
                        let guard = state@[j]->Write_0;
                        &&& state@[j] is Write
                        &&& *guard.0 == *lent
                        &&& *final(guard.0) == *final(lent)
                    },
                    Pattern::Not(_) => state@[j] is Nothing,
                    Pattern::Entity => state@[j] is Entity,
                },
        decreases terms@.len() - k,
    {
        let ghost rows1 = rows@;
        let term = terms[k];
        let fetched = match term {
            Pattern::Read(c) => {
                let i = c.id as usize;
                proof {
                    if rows1[i as int] is Taken {
                        assert(conflict_at(terms@, writer[i as int], k as int));
                    }
                    reader = reader.insert(i as int, k as int);
                }
                Fetched::Read(rows[i].read())
            },
            Pattern::Write(c) => {
                let i = c.id as usize;
                proof {
                    if rows1[i as int] is Shared {
                        assert(conflict_at(terms@, reader[i as int], k as int));
                    }
                    if rows1[i as int] is Taken {
                        assert(conflict_at(terms@, writer[i as int], k as int));
                    }
                    writer = writer.insert(i as int, k as int);
                }
                Fetched::Write(rows[i].write())
            },
            Pattern::Not(_) => Fetched::Nothing,
            Pattern::Entity => Fetched::Entity,
        };
        state.push(fetched);
        k += 1;
    }
    proof {
        assert forall|i: int| 0 <= i < rows0.len() implies ((#[trigger] rows@[i]) is Taken
            <==> writes(terms@, i)) by {
            if writes(terms@, i) {
                let j = choose|j: int|
                    0 <= j < terms@.len() && #[trigger] terms@[j] == Pattern::Write(
                        ComponentId { id: i as u64 },
                    );
                assert(terms@[j].borrows() == Some(i as u64));
            }
            if rows@[i] is Taken {
                assert(terms@[writer[i]] == Pattern::Write(ComponentId { id: i as u64 }));
            }
        }
    }
    state
}

/// What a query gives for one of its terms and one entity.
pub enum Item<'b, C> {
    /// The entity's component of the term's kind.
    Read(&'b C),
    /// The entity's component of the term's kind, to be changed in place.
    Write(&'b mut C),
    /// Nothing: the term asked that a kind be absent.
    Nothing,
    /// The entity's handle.
    Entity(EntityId),
}

/// Whether what a query holds for a term has a value for slot `idx`, if it
/// holds a storage at all.
pub open spec fn has_value<C, S: Storage<C>>(f: Fetched<'_, S>, idx: nat) -> bool {
    match f {
        Fetched::Read(g) => g.0.contents().contains_key(idx),
        Fetched::Write(g) => g.0.contents().contains_key(idx),
        _ => true,
    }
}

/// Whether `item` is what the state `f` of one term gives for the entity
/// `e`: the value at the entity's slot, nothing, or the handle.
pub open spec fn gives<C, S: Storage<C>>(f: Fetched<'_, S>, item: Item<'_, C>, e: Id) -> bool {
    match f {
        Fetched::Read(g) => item is Read && *item->Read_0 == g.0.contents()[e.idx],
        Fetched::Write(g) => item is Write && *item->Write_0 == g.0.contents()[e.idx],
        Fetched::Nothing => item is Nothing,
        Fetched::Entity => item is Entity && item->Entity_0@ == e,
    }
}

/// Whether `after` is the state `before` of a writing term once `value`
/// has been left at slot `idx`: the same storage but for that one value.
pub open spec fn rewritten<C, S: Storage<C>>(
    before: Fetched<'_, S>,
    after: Fetched<'_, S>,
    idx: nat,
    value: C,
) -> bool {
    after is Write && after->Write_0.0.contents() == before->Write_0.0.contents().insert(
        idx,
        value,
    )
}

/// Adds to `out`, for each term's state in order, what the term gives for
/// the entity: a reference straight into the storage that the state holds,
/// with no look at the entity's mask. What is written through an item is
/// what the state's storage holds afterwards.
pub fn project<'b, 'a: 'b, C, S: Storage<C>>(
    state: &'b mut [Fetched<'a, S>],
    entity: EntityId,
    out: &mut Vec<Item<'b, C>>,
)
    requires
        forall|k: int|
            0 <= k < old(state)@.len() ==> has_value::<C, S>(
                #[trigger] old(state)@[k],
                entity@.idx,
            ),
    ensures
        final(state)@.len() == old(state)@.len(),
        final(out)@.len() == old(out)@.len() + old(state)@.len(),
        forall|j: int| 0 <= j < old(out)@.len() ==> final(out)@[j] == old(out)@[j],
        forall|j: int|
            old(out)@.len() <= j < final(out)@.len() ==> {
                let item = #[trigger] final(out)@[j];
                let before = old(state)@[j - old(out)@.len()];
                let after = final(state)@[j - old(out)@.len()];
                &&& gives(before, item, entity@)
                &&& !(before is Write) ==> after == before
                &&& before is Write ==> rewritten(before, after, entity@.idx, *final(item->Write_0))
                    && *final(after->Write_0.0) == *final(before->Write_0.0)
            },
        forall|k: int, i: nat|
            0 <= k < old(state)@.len() && #[trigger] has_value::<C, S>(old(state)@[k], i)
                ==> has_value::<C, S>(final(state)@[k], i),
{
    let ghost before = state@;
    let ghost after = final(state)@;
    let ghost out0 = out@;
    let mut rest: &'b mut [Fetched<'a, S>] = state;
    while rest.len() > 0
        invariant
            out@.len() + rest@.len() == out0.len() + before.len(),
            out0.len() <= out@.len(),
            rest@ == before.subrange(out@.len() - out0.len(), before.len() as int),
            after.len() == out@.len() - out0.len() + final(rest)@.len(),
            forall|i: int|
                0 <= i < final(rest)@.len() ==> final(rest)@[i] == after[out@.len() - out0.len()
                    + i],
            forall|j: int| 0 <= j < out0.len() ==> out@[j] == out0[j],
            forall|k: int|
                0 <= k < before.len() ==> has_value::<C, S>(#[trigger] before[k], entity@.idx),
            forall|j: int|
                out0.len() <= j < out@.len() ==> {
                    let item = #[trigger] out@[j];
                    let b = before[j - out0.len()];
                    let a = after[j - out0.len()];
                    &&& gives(b, item, entity@)
                    &&& !(b is Write) ==> a == b
                    &&& b is Write ==> rewritten(b, a, entity@.idx, *final(item->Write_0))
                        && *final(a->Write_0.0) == *final(b->Write_0.0)
                },
        decreases rest@.len(),
    {
        let ghost k = out@.len() - out0.len();
        let ghost rest_after = final(rest)@;
        let (head, tail) = rest.split_at_mut(1);
        let ghost head_after = final(head)@;
        let ghost tail_after = final(tail)@;
        assert(head@[0] == before[k]);
        match head.first_mut() {
            Some(f) => {
                let item = match f {
                    Fetched::Read(g) => {
                        let storage: &'a S = g.0;
                        Item::Read(storage.get_unchecked(entity))
                    },
                    Fetched::Write(g) => Item::Write(g.0.get_unchecked_mut(entity)),
                    Fetched::Nothing => Item::Nothing,
                    Fetched::Entity => Item::Entity(entity),
                };
                out.push(item);
            },
            None => {},
        }
        rest = tail;
        proof {
            assert(rest_after =~= head_after + tail_after);
            assert(head_after.len() == 1);
            assert(rest_after[0] == head_after[0]);
            assert forall|i: int| 0 <= i < tail_after.len() implies tail_after[i] == after[k + 1
                + i] by {
                assert(rest_after[1 + i] == tail_after[i]);
            }
        }
    }
    proof {
        assert forall|k: int, i: nat|
            0 <= k < before.len() && #[trigger] has_value::<C, S>(before[k], i) implies has_value::<
            C,
            S,
        >(after[k], i) by {
            let item = out@[out0.len() + k];
        }
    }
}

/// A query bound to a store: the registry, the requirement that the terms
/// make of an entity's mask, and what was fetched for each term.
pub struct Query<'a, C: Component> {
    /// The store's registry.
    pub entities: &'a Entities,
    /// The requirement `(check, mask)` of all terms together.
    pub filter: (BitMask, BitMask),
    /// What the query holds for each term, in the order of the terms.
    pub state: Vec<Fetched<'a, C::Storage>>,
}

/// Whether every slot of `slots` that meets `filter` has a value in each
/// storage that `state` holds.
pub open spec fn covers<C, S: Storage<C>>(
    state: Seq<Fetched<'_, S>>,
    slots: Seq<crate::entity::Slot>,
    filter: (u64, u64),
) -> bool {
    forall|k: int, i: int|
        0 <= k < state.len() && 0 <= i < slots.len() && selects(#[trigger] slots[i], filter)
            ==> has_value::<C, S>(#[trigger] state[k], i as nat)
}

impl<'a, C: Component> Query<'a, C> {
    /// The registry is well formed, and every entity that the query
    /// selects has a value in each storage that the query holds.
    pub open spec fn wf(&self) -> bool {
        &&& self.entities.wf()
        &&& covers::<C, C::Storage>(self.state@, self.entities@, filter_view(self.filter))
    }

    /// Whether the query selects the entity: the handle resolves and the
    /// entity's mask meets the requirement.
    pub open spec fn selected(&self, e: Id) -> bool {
        resolves(self.entities@, e) && selects(
            self.entities@[e.idx as int],
            filter_view(self.filter),
        )
    }

    /// What the terms give for one entity, or `None` if the query does not
    /// select it.
    pub fn get(&mut self, entity: EntityId) -> (r: Option<Vec<Item<'_, C>>>)
        requires
            old(self).wf(),
        ensures
            r is Some <==> old(self).selected(entity@),
            final(self).entities == old(self).entities,
            final(self).filter == old(self).filter,
            final(self).state@.len() == old(self).state@.len(),
            final(self).wf(),
            r is None ==> final(self).state@ == old(self).state@,
            r is Some ==> r->Some_0@.len() == old(self).state@.len(),
            r is Some ==> forall|k: int|
                0 <= k < old(self).state@.len() ==> {
                    let item = #[trigger] r->Some_0@[k];
                    let before = old(self).state@[k];
                    let after = final(self).state@[k];
                    &&& gives(before, item, entity@)
                    &&& !(before is Write) ==> after == before
                    &&& before is Write ==> rewritten(
                        before,
                        after,
                        entity@.idx,
                        *final(item->Write_0),
                    ) && *final(after->Write_0.0) == *final(before->Write_0.0)
                },
    {
        let selected = match self.entities.comp_mask(entity) {
            Some(mask) => mask.matches(&self.filter),
            None => false,
        };
        if !selected {
            return None;
        }
        let ghost before = self.state@;
        let ghost after = final(self).state@;
        let ghost slots = self.entities@;
        let ghost filter = filter_view(self.filter);
        let mut out: Vec<Item<'_, C>> = Vec::new();
        project(self.state.as_mut_slice(), entity, &mut out);
        proof {
            assert forall|k: int, i: int|
                0 <= k < after.len() && 0 <= i < slots.len() && selects(
                    #[trigger] slots[i],
                    filter,
                ) implies has_value::<C, C::Storage>(#[trigger] after[k], i as nat) by {
                assert(has_value::<C, C::Storage>(before[k], i as nat));
            }
        }
        Some(out)
    }

    /// A second query over the same storages, where this one only reads:
    /// `None` if any term writes.
    pub fn try_clone(&self) -> (r: Option<Query<'a, C>>)
        ensures
            r is Some <==> forall|k: int|
                0 <= k < self.state@.len() ==> !((#[trigger] self.state@[k]) is Write),
            r is Some ==> r->Some_0.entities == self.entities && r->Some_0.filter == self.filter
                && r->Some_0.state@ == self.state@,
    {
        let mut state: Vec<Fetched<'a, C::Storage>> = Vec::new();
        let mut k: usize = 0;
        while k < self.state.len()
            invariant
                k <= self.state@.len(),
                state@.len() == k,
                forall|j: int| 0 <= j < k ==> !((#[trigger] self.state@[j]) is Write),
                forall|j: int| 0 <= j < k ==> (#[trigger] state@[j]) == self.state@[j],
            decreases self.state@.len() - k,
        {
            let fetched = match &self.state[k] {
                Fetched::Read(g) => Fetched::Read(g.clone()),
                Fetched::Write(_) => {
                    return None;
                },
                Fetched::Nothing => Fetched::Nothing,
                Fetched::Entity => Fetched::Entity,
            };
            state.push(fetched);
            k += 1;
        }
        assert(state@ =~= self.state@);
        Some(Query { entities: self.entities, filter: self.filter, state })
    }

    /// A walk over the entities that the query selects, in the order of
    /// their slots, giving for each what the terms give. A second call
    /// starts a new walk.
    pub fn iter(&mut self) -> (it: QueryIter<'_, 'a, C>)
        requires
            old(self).wf(),
        ensures
            it.wf(),
            it.state@ == old(self).state@,
            it.entities.slots() == old(self).entities@,
            it.entities.filter() == filter_view(old(self).filter),
            it.entities.remaining() == matching(old(self).entities@, filter_view(old(self).filter)),
            final(self).entities == old(self).entities,
            final(self).filter == old(self).filter,
            final(self).state == *final(it.state),
    {
        QueryIter { state: &mut self.state, entities: self.entities.iter_filter(&self.filter) }
    }
}

/// A walk over the entities that a query selects: see [`Query::iter`].
pub struct QueryIter<'q, 'a, C: Component> {
    /// What the query holds for each term.
    pub state: &'q mut Vec<Fetched<'a, C::Storage>>,
    /// The walk over the registry.
    pub entities: EntityIter<'a>,
}

impl<'q, 'a, C: Component> QueryIter<'q, 'a, C> {
    /// The registry is well formed, and every entity that the walk can
    /// yield has a value in each storage that the query holds.
    pub open spec fn wf(&self) -> bool {
        &&& self.entities.wf()
        &&& covers::<C, C::Storage>(self.state@, self.entities.slots(), self.entities.filter())
    }

    /// What the terms give for the next entity of the walk, or `None` when
    /// the walk is over.
    pub fn next(&mut self) -> (r: Option<Vec<Item<'_, C>>>)
        requires
            old(self).wf(),
        ensures
            final(self).wf(),
            final(self).entities.slots() == old(self).entities.slots(),
            final(self).entities.filter() == old(self).entities.filter(),
            final(self).state@.len() == old(self).state@.len(),
            *final(final(self).state) == *final(old(self).state),
            r is Some <==> old(self).entities.remaining().len() > 0,
            r is None ==> final(self).entities.remaining().len() == 0,
            r is None ==> final(self).state@ == old(self).state@,
            r is Some ==> final(self).entities.remaining()
                == old(self).entities.remaining().drop_first(),
            r is Some ==> r->Some_0@.len() == old(self).state@.len(),
            r is Some ==> forall|k: int|
                0 <= k < old(self).state@.len() ==> {
                    let item = #[trigger] r->Some_0@[k];
                    let before = old(self).state@[k];
                    let after = final(self).state@[k];
                    let e = old(self).entities.remaining()[0];
                    &&& gives(before, item, e)
                    &&& !(before is Write) ==> after == before
                    &&& before is Write ==> rewritten(before, after, e.idx, *final(item->Write_0))
                        && *final(after->Write_0.0) == *final(before->Write_0.0)
                },
    {
        let ghost before = self.state@;
        let ghost after = final(self).state@;
        let ghost slots = self.entities.slots();
        let ghost filter = self.entities.filter();
        let ghost rest = self.entities.remaining();
        proof {
            let from = self.entities.lemma_remaining();
            if rest.len() > 0 {
                assert(rest.contains(rest[0]));
                lemma_matching_contains(slots, filter, from, rest[0]);
            }
        }
        let entity = match self.entities.next() {
            Some(e) => e,
            None => {
                return None;
            },
        };
        let mut out: Vec<Item<'_, C>> = Vec::new();
        project(self.state.as_mut_slice(), entity, &mut out);
        proof {
            assert forall|k: int, i: int|
                0 <= k < after.len() && 0 <= i < slots.len() && selects(
                    #[trigger] slots[i],
                    filter,
                ) implies has_value::<C, C::Storage>(#[trigger] after[k], i as nat) by {
                assert(has_value::<C, C::Storage>(before[k], i as nat));
            }
        }
        Some(out)
    }
}

} // verus!
