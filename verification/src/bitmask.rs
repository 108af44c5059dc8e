use vstd::prelude::*;

verus! {

/// Number of bit positions in a mask, and so the number of component kinds
/// that one store can tell apart.
pub const WIDTH: u64 = 64;

/// Whether bit `x` of the word `w` is set. False for every `x` at or above
/// [`WIDTH`].
pub open spec fn bit(w: u64, x: u64) -> bool {
    x < 64 && (w >> x) & 1 == 1
}

/// Whether a word `w` meets the requirement `(check, mask)`: the bits of `w`
/// that `mask` selects are exactly `check`.
pub open spec fn word_matches(w: u64, check: u64, mask: u64) -> bool {
    w & mask == check
}

/// Whether two requirements can be merged: the union of the two `check`
/// words, cut down to either `mask`, gives that requirement's own `check`
/// back.
pub open spec fn compatible(a: (u64, u64), b: (u64, u64)) -> bool {
    &&& (a.0 | b.0) & a.1 == a.0
    &&& (a.0 | b.0) & b.1 == b.0
}

/// The merged requirement of `a` and `b`.
pub open spec fn merged(a: (u64, u64), b: (u64, u64)) -> (u64, u64) {
    (a.0 | b.0, a.1 | b.1)
}

/// A set of bit positions below [`WIDTH`], one per component kind. Its view
/// is the 64-bit word whose set bits are the members.
#[derive(Clone, Copy, Debug, PartialEq, Eq, Structural)]
pub struct BitMask(u64);

impl View for BitMask {
    type V = u64;

    closed spec fn view(&self) -> u64 {
        self.0
    }
}

/// The pair of words that a pair of masks stands for.
pub open spec fn filter_view(f: (BitMask, BitMask)) -> (u64, u64) {
    (f.0@, f.1@)
}

impl BitMask {
    /// Whether position `x` is a member.
    pub open spec fn has(self, x: u64) -> bool {
        bit(self@, x)
    }

    /// Whether the mask meets the requirement `filter`.
    pub open spec fn spec_matches(self, filter: (BitMask, BitMask)) -> bool {
        word_matches(self@, filter.0@, filter.1@)
    }

    /// Two masks with the same word are the same mask.
    pub proof fn lemma_same_word(self, other: BitMask)
        requires
            self@ == other@,
        ensures
            self == other,
    {
    }

    /// The empty mask.
    pub fn zero() -> (m: Self)
        ensures
            m@ == 0,
    {
        BitMask(0)
    }

    /// The mask whose only member is `x`.
    pub fn with(x: u64) -> (m: Self)
        requires
            x < WIDTH,
        ensures
            m@ == 1u64 << x,
    {
        BitMask(1u64 << x)
    }

    /// The positions that are in both masks.
    pub fn intersection(self, other: Self) -> (m: Self)
        ensures
            m@ == self@ & other@,
    {
        BitMask(self.0 & other.0)
    }

    /// The positions that are in either mask.
    pub fn union(self, other: Self) -> (m: Self)
        ensures
            m@ == self@ | other@,
    {
        BitMask(self.0 | other.0)
    }

    /// Whether the mask meets `filter`, a pair `(check, mask)`: the members
    /// that `mask` selects are exactly those of `check`.
    pub fn matches(&self, filter: &(Self, Self)) -> (b: bool)
        ensures
            b == self.spec_matches(*filter),
    {
        self.0 & filter.1.0 == filter.0.0
    }

    /// Whether position `x` is a member.
    pub fn bit_is_set(&self, x: u64) -> (b: bool)
        requires
            x < WIDTH,
        ensures
            b == self.has(x),
    {
        let w: u64 = self.0;
        assert(((w >> x) & 1 != 0) == ((w >> x) & 1 == 1)) by (bit_vector);
        (w >> x) & 1 != 0
    }

    /// Adds position `x`.
    pub fn set_bit(&mut self, x: u64)
        requires
            x < WIDTH,
        ensures
            final(self)@ == old(self)@ | (1u64 << x),
    {
        self.0 = self.0 | (1u64 << x);
    }

    /// Removes position `x`.
    pub fn unset_bit(&mut self, x: u64)
        requires
            x < WIDTH,
        ensures
            final(self)@ == old(self)@ & !(1u64 << x),
    {
        self.0 = self.0 & !(1u64 << x);
    }

    /// Merges two requirements into one that asks for both, or reports that
    /// they contradict each other.
    pub fn combine_filters(a: (BitMask, BitMask), b: (BitMask, BitMask)) -> (r: Option<
        (BitMask, BitMask),
    >)
        ensures
            r is Some <==> compatible(filter_view(a), filter_view(b)),
            r is Some ==> filter_view(r->Some_0) == merged(filter_view(a), filter_view(b)),
    {
        let (a_check, a_mask) = a;
        let (b_check, b_mask) = b;
        let check = a_check.union(b_check);
        if check.intersection(a_mask) == a_check && check.intersection(b_mask) == b_check {
            Some((check, a_mask.union(b_mask)))
        } else {
            None
        }
    }
}

impl core::ops::BitOrAssign for BitMask {
    /// Adds the members of `other`.
    fn bitor_assign(&mut self, other: Self)
        ensures
            final(self)@ == old(self)@ | other@,
    {
        self.0 = self.0 | other.0;
    }
}

/// A merged requirement is met by exactly the words that meet both of its
/// parts.
pub proof fn lemma_merged_matches(a: (u64, u64), b: (u64, u64), w: u64)
    requires
        compatible(a, b),
    ensures
        word_matches(w, merged(a, b).0, merged(a, b).1) <==> word_matches(w, a.0, a.1)
            && word_matches(w, b.0, b.1),
{
    let (ac, am) = a;
    let (bc, bm) = b;
    assert((ac | bc) & am == ac && (ac | bc) & bm == bc ==> ((w & (am | bm) == (ac | bc)) <==> (w
        & am == ac && w & bm == bc))) by (bit_vector);
}

/// Two requirements can be merged exactly when some word meets both: a
/// refused merge is a contradiction, and a contradiction is always refused.
pub proof fn lemma_compatible_iff_satisfiable(a: (u64, u64), b: (u64, u64))
    ensures
        compatible(a, b) <==> exists|w: u64|
            word_matches(w, a.0, a.1) && word_matches(w, b.0, b.1),
{
    let (ac, am) = a;
    let (bc, bm) = b;
    if compatible(a, b) {
        let w = ac | bc;
        assert(word_matches(w, a.0, a.1) && word_matches(w, b.0, b.1));
    }
    if exists|w: u64| word_matches(w, a.0, a.1) && word_matches(w, b.0, b.1) {
        let w = choose|w: u64| word_matches(w, a.0, a.1) && word_matches(w, b.0, b.1);
        assert(w & am == ac && w & bm == bc ==> (ac | bc) & am == ac && (ac | bc) & bm == bc)
            by (bit_vector);
    }
}

/// The word with the single bit `x` has bit `y` exactly when `y` is `x`.
pub proof fn lemma_single_bit(x: u64, y: u64)
    requires
        x < WIDTH,
    ensures
        bit(1u64 << x, y) <==> y == x,
        bit(0, y) == false,
{
    assert(x < 64 && y < 64 ==> (((1u64 << x) >> y) & 1 == 1 <==> y == x)) by (bit_vector);
    assert(y < 64 ==> (0u64 >> y) & 1 == 0) by (bit_vector);
}

/// Bit by bit, `|` is "or", `&` is "and" and `!` is "not".
pub proof fn lemma_bitwise(v: u64, w: u64, y: u64)
    ensures
        bit(v | w, y) <==> bit(v, y) || bit(w, y),
        bit(v & w, y) <==> bit(v, y) && bit(w, y),
        y < WIDTH ==> (bit(!v, y) <==> !bit(v, y)),
{
    assert(y < 64 ==> ((((v | w) >> y) & 1 == 1) <==> ((v >> y) & 1 == 1 || (w >> y) & 1 == 1)))
        by (bit_vector);
    assert(y < 64 ==> ((((v & w) >> y) & 1 == 1) <==> ((v >> y) & 1 == 1 && (w >> y) & 1 == 1)))
        by (bit_vector);
    assert(y < 64 ==> ((((!v) >> y) & 1 == 1) <==> !((v >> y) & 1 == 1))) by (bit_vector);
}

/// What the three one-bit requirements ask of a word: bit `x` set, bit `x`
/// clear, and nothing at all.
pub proof fn lemma_single_requirements(w: u64, x: u64)
    requires
        x < WIDTH,
    ensures
        word_matches(w, 1u64 << x, 1u64 << x) <==> bit(w, x),
        word_matches(w, 0, 1u64 << x) <==> !bit(w, x),
        word_matches(w, 0, 0),
{
    assert(x < 64 ==> ((w & (1u64 << x) == (1u64 << x)) <==> (w >> x) & 1 == 1)) by (bit_vector);
    assert(x < 64 ==> ((w & (1u64 << x) == 0) <==> !((w >> x) & 1 == 1))) by (bit_vector);
    assert(w & 0 == 0) by (bit_vector);
}

} // verus!
