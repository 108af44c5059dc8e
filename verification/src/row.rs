use vstd::prelude::*;

verus! {

/// Shared access to a lent value.
pub struct Read<'a, T>(pub &'a T);

/// Exclusive access to a lent value.
pub struct Write<'a, T>(pub &'a mut T);

impl<'a, T> Clone for Read<'a, T> {
    fn clone(&self) -> (r: Self)
        ensures
            r == *self,
    {
        Read(self.0)
    }
}

impl<'a, T> core::ops::Deref for Read<'a, T> {
    type Target = T;

    fn deref(&self) -> (r: &T)
        ensures
            *r == *self.0,
    {
        self.0
    }
}

impl<'a, T> core::ops::Deref for Write<'a, T> {
    type Target = T;

    fn deref(&self) -> (r: &T)
        ensures
            *r == *old(self.0),
    {
        &*self.0
    }
}

impl<'a, T> core::ops::DerefMut for Write<'a, T> {
    fn deref_mut(&mut self) -> (r: &mut T)
        ensures
            *r == *old(self).0,
            *final(self).0 == *final(r),
            *final(final(self).0) == *final(old(self).0),
    {
        &mut *self.0
    }
}

/// A cell that holds one value and hands it out under guards: to any
/// number of readers at once, or to one writer.
///
/// A guard borrows from the row for as long as it lives, so a request that
/// would meet a guard in its way cannot be made. When the guards are gone
/// the row is free again, and what the last writer left is what it holds.
pub struct Row<T> {
    value: T,
}

impl<T> View for Row<T> {
    type V = T;

    closed spec fn view(&self) -> T {
        self.value
    }
}

impl<T> Row<T> {
    /// A row that holds `x`.
    pub fn new(x: T) -> (r: Self)
        ensures
            r@ == x,
    {
        Row { value: x }
    }

    /// Shared access to the value.
    pub fn read(&self) -> (g: Read<'_, T>)
        ensures
            *g.0 == self@,
    {
        Read(&self.value)
    }

    /// Exclusive access to the value. What the writer leaves behind is what
    /// the row holds once the guard is gone.
    pub fn write(&mut self) -> (g: Write<'_, T>)
        ensures
            *g.0 == old(self)@,
            final(self)@ == *final(g.0),
    {
        Write(&mut self.value)
    }

    /// The value itself, to be changed in place.
    pub fn get_mut(&mut self) -> (r: &mut T)
        ensures
            *r == old(self)@,
            final(self)@ == *final(r),
    {
        &mut self.value
    }

    /// Gives the value up.
    pub fn into_inner(self) -> (x: T)
        ensures
            x == self@,
    {
        self.value
    }

    /// The value of the row that an insertion put out of its place, if it
    /// put one out.
    pub fn taken(prev: Option<Row<T>>) -> (r: Option<T>)
        ensures
            r == match prev {
                Some(row) => Some(row@),
                None => None::<T>,
            },
    {
        match prev {
            Some(row) => Some(row.into_inner()),
            None => None,
        }
    }

    /// Shared access to the value of the row that a lookup found, if it
    /// found one.
    pub fn read_found<'a>(found: Option<&'a Row<T>>) -> (r: Option<Read<'a, T>>)
        ensures
            r is Some <==> found is Some,
            found is Some ==> *r->Some_0.0 == found->Some_0@,
    {
        match found {
            Some(row) => Some(row.read()),
            None => None,
        }
    }

    /// Exclusive access to the value of the row that a lookup found, if it
    /// found one. What the writer leaves behind is what the row then holds.
    pub fn write_found<'a>(found: Option<&'a mut Row<T>>) -> (r: Option<Write<'a, T>>)
        ensures
            r is Some <==> found is Some,
            found is Some ==> *r->Some_0.0 == found->Some_0@,
            found is Some ==> final(found->Some_0)@ == *final(r->Some_0.0),
    {
        match found {
            Some(row) => Some(row.write()),
            None => None,
        }
    }

    /// The value of the row that a lookup found, to be changed in place, if
    /// it found one.
    pub fn mut_found<'a>(found: Option<&'a mut Row<T>>) -> (r: Option<&'a mut T>)
        ensures
            r is Some <==> found is Some,
            found is Some ==> *r->Some_0 == found->Some_0@,
            found is Some ==> final(found->Some_0)@ == *final(r->Some_0),
    {
        match found {
            Some(row) => Some(row.get_mut()),
            None => None,
        }
    }
}

/// How a place stands with its borrowers.
pub enum Lending {
    /// Nothing is lent.
    Free,
    /// Lent to readers.
    Shared,
    /// Lent to one writer.
    Taken,
}

/// Whether a place in state `s` can serve a reader.
pub open spec fn grants_read(s: Lending) -> bool {
    !(s is Taken)
}

/// Whether a place in state `s` can serve a writer.
pub open spec fn grants_write(s: Lending) -> bool {
    s is Free
}

/// The state of a place after it has served a reader.
pub open spec fn after_read(s: Lending) -> Lending {
    if s is Free {
        Lending::Shared
    } else {
        s
    }
}

/// The state of a place after it has served a writer.
pub open spec fn after_write(s: Lending) -> Lending {
    if s is Free {
        Lending::Taken
    } else {
        s
    }
}

/// One place of a slice that was borrowed as a whole, on its way to the
/// guards of one query: handed on once to a writer, or shared among
/// readers. The borrow of the slice ends when the guards are gone.
pub enum Place<'a, T> {
    /// Nothing is lent.
    Free(&'a mut T),
    /// Lent to readers.
    Shared(&'a T),
    /// Lent to one writer.
    Taken,
}

impl<'a, T> View for Place<'a, T> {
    type V = Lending;

    open spec fn view(&self) -> Lending {
        match *self {
            Place::Free(_) => Lending::Free,
            Place::Shared(_) => Lending::Shared,
            Place::Taken => Lending::Taken,
        }
    }
}

impl<'a, T> Place<'a, T> {
    /// The value that the place holds, while no writer has it.
    pub open spec fn value(self) -> T {
        match self {
            Place::Free(m) => *m,
            Place::Shared(r) => *r,
            Place::Taken => arbitrary(),
        }
    }

    /// Shared access to the place. From then on the value is frozen.
    pub fn read(&mut self) -> (g: Read<'a, T>)
        requires
            grants_read(old(self)@),
        ensures
            final(self)@ == after_read(old(self)@),
            *g.0 == old(self).value(),
            *final(self) == Place::Shared(g.0),
            *old(self) is Free ==> *final(old(self)->Free_0) == *old(self)->Free_0,
    {
        let mut cur = Place::Taken;
        core::mem::swap(self, &mut cur);
        match cur {
            Place::Free(m) => {
                let r: &'a T = &*m;
                *self = Place::Shared(r);
                Read(r)
            },
            Place::Shared(r) => {
                *self = Place::Shared(r);
                Read(r)
            },
            Place::Taken => unreached(),
        }
    }

    /// Exclusive access to the place. What the writer leaves behind is what
    /// the place's owner gets back.
    pub fn write(&mut self) -> (g: Write<'a, T>)
        requires
            grants_write(old(self)@),
        ensures
            final(self)@ == after_write(old(self)@),
            *g.0 == old(self).value(),
            *final(g.0) == *final(old(self)->Free_0),
    {
        let mut cur = Place::Taken;
        core::mem::swap(self, &mut cur);
        match cur {
            Place::Free(m) => Write(m),
            _ => unreached(),
        }
    }
}

/// A writer shuts out every later borrower, and readers shut out every
/// later writer but no reader.
pub proof fn lemma_one_writer_or_many_readers(s: Lending)
    ensures
        grants_write(s) ==> !grants_read(after_write(s)) && !grants_write(after_write(s)),
        grants_read(s) ==> grants_read(after_read(s)) && !grants_write(after_read(s)),
        !grants_read(s) ==> !grants_write(s),
{
}

/// Adds to `rows` one free place for each place of `slice`, in order.
pub fn places_of<'a, T>(slice: &'a mut [T], rows: &mut Vec<Place<'a, T>>)
    ensures
        final(slice)@.len() == old(slice)@.len(),
        final(rows)@.len() == old(rows)@.len() + old(slice)@.len(),
        forall|j: int| 0 <= j < old(rows)@.len() ==> final(rows)@[j] == old(rows)@[j],
        forall|j: int|
            old(rows)@.len() <= j < final(rows)@.len() ==> {
                let row = #[trigger] final(rows)@[j];
                &&& row is Free
                &&& *row->Free_0 == old(slice)@[j - old(rows)@.len()]
                &&& *final(row->Free_0) == final(slice)@[j - old(rows)@.len()]
            },
{
    let ghost before = slice@;
    let ghost after = final(slice)@;
    let ghost rows0 = rows@;
    let mut rest: &'a mut [T] = slice;
    while rest.len() > 0
        invariant
            rows@.len() + rest@.len() == rows0.len() + before.len(),
            rows0.len() <= rows@.len(),
            rest@ == before.subrange(rows@.len() - rows0.len(), before.len() as int),
            after.len() == rows@.len() - rows0.len() + final(rest)@.len(),
            forall|i: int|
                0 <= i < final(rest)@.len() ==> final(rest)@[i] == after[rows@.len() - rows0.len()
                    + i],
            forall|j: int| 0 <= j < rows0.len() ==> rows@[j] == rows0[j],
            forall|j: int|
                rows0.len() <= j < rows@.len() ==> {
                    let row = #[trigger] rows@[j];
                    &&& row is Free
                    &&& *row->Free_0 == before[j - rows0.len()]
                    &&& *final(row->Free_0) == after[j - rows0.len()]
                },
        decreases rest@.len(),
    {
        let ghost k = rows@.len() - rows0.len();
        let ghost rest_after = final(rest)@;
        let (head, tail) = rest.split_at_mut(1);
        let ghost head_after = final(head)@;
        let ghost tail_after = final(tail)@;
        match head.first_mut() {
            Some(m) => {
                rows.push(Place::Free(m));
            },
            None => {},
        }
        rest = tail;
        proof {
            assert(rest_after =~= head_after + tail_after);
            assert(head_after.len() == 1);
            assert(rest_after[0] == head_after[0]);
            assert forall|i: int| 0 <= i < tail_after.len() implies tail_after[i] == after[k + 1
                + i] by {
                assert(rest_after[1 + i] == tail_after[i]);
            }
        }
    }
}

} // verus!
