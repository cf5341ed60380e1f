//! A dynamically sized bit-vector over the solution space.
//!
//! The solution-space mask of a rule, and the working mask of the greedy
//! reduction, are values of [`BitMask`]. The abstract value of a mask is a
//! `Seq<bool>`; every operation is specified against that view.

use vstd::prelude::*;

verus! {

/// Error raised by bit-vector operations on an out-of-range index.
#[derive(Clone, Copy, Debug, PartialEq, Eq, Structural)]
pub enum BitMaskError {
    IndexOutOfRange,
}

/// Number of set bits of a bit sequence.
pub open spec fn popcount(s: Seq<bool>) -> nat
    decreases s.len(),
{
    if s.len() == 0 {
        0
    } else {
        popcount(s.drop_last()) + if s.last() {
            1nat
        } else {
            0nat
        }
    }
}

/// The bits counted by `popcount` are exactly the `true` positions: a
/// sequence with no set bit has popcount zero, and conversely.
pub proof fn lemma_popcount_zero(s: Seq<bool>)
    ensures
        (popcount(s) == 0) <==> (forall|i: int| 0 <= i < s.len() ==> !s[i]),
    decreases s.len(),
{
    if s.len() > 0 {
        lemma_popcount_zero(s.drop_last());
        if popcount(s) == 0 {
            assert(forall|i: int|
                0 <= i < s.len() - 1 ==> s[i] == s.drop_last()[i] && !s.drop_last()[i]);
        } else if forall|i: int| 0 <= i < s.len() ==> !s[i] {
            assert(forall|i: int| 0 <= i < s.len() - 1 ==> !s.drop_last()[i]);
        }
    }
}

/// A sequence with every bit set has popcount equal to its length.
pub proof fn lemma_popcount_ones(s: Seq<bool>)
    requires
        forall|i: int| 0 <= i < s.len() ==> s[i],
    ensures
        popcount(s) == s.len(),
    decreases s.len(),
{
    if s.len() > 0 {
        assert(forall|i: int| 0 <= i < s.drop_last().len() ==> s.drop_last()[i] == s[i]);
        lemma_popcount_ones(s.drop_last());
    }
}

/// Popcount never exceeds the length.
pub proof fn lemma_popcount_le_len(s: Seq<bool>)
    ensures
        popcount(s) <= s.len(),
    decreases s.len(),
{
    if s.len() > 0 {
        lemma_popcount_le_len(s.drop_last());
    }
}

/// Pointwise implication of bits gives `<=` of popcounts, and strictly `<`
/// when some bit is set on the right but not on the left.
pub proof fn lemma_popcount_subset(a: Seq<bool>, b: Seq<bool>)
    requires
        a.len() == b.len(),
        forall|i: int| 0 <= i < a.len() ==> (a[i] ==> b[i]),
    ensures
        popcount(a) <= popcount(b),
        (exists|i: int| 0 <= i < a.len() && !a[i] && b[i]) ==> popcount(a) < popcount(b),
    decreases a.len(),
{
    if a.len() > 0 {
        assert(forall|i: int|
            0 <= i < a.len() - 1 ==> (a.drop_last()[i] ==> b.drop_last()[i]));
        lemma_popcount_subset(a.drop_last(), b.drop_last());
        if exists|i: int| 0 <= i < a.len() && !a[i] && b[i] {
            let w = choose|i: int| 0 <= i < a.len() && !a[i] && b[i];
            if w == a.len() - 1 {
            } else {
                assert(!a.drop_last()[w] && b.drop_last()[w]);
            }
        }
    }
}

/// A dynamically sized bit-vector.
pub struct BitMask {
    bits: Vec<bool>,
}

impl View for BitMask {
    type V = Seq<bool>;

    closed spec fn view(&self) -> Seq<bool> {
        self.bits@
    }
}

impl Clone for BitMask {
    /// A cloned mask has the same bits.
    fn clone(&self) -> (r: Self)
        ensures
            r@ == self@,
    {
        let mut bits: Vec<bool> = Vec::new();
        let mut i: usize = 0;
        while i < self.bits.len()
            invariant
                i <= self.bits.len(),
                bits@ =~= self.bits@.take(i as int),
            decreases self.bits.len() - i,
        {
            bits.push(self.bits[i]);
            i = i + 1;
        }
        assert(bits@ =~= self.bits@);
        BitMask { bits }
    }
}

impl BitMask {
    /// An all-zero mask of `n` bits.
    pub fn zeros(n: usize) -> (r: Self)
        ensures
            r@.len() == n,
            forall|i: int| 0 <= i < n ==> !r@[i],
    {
        let mut bits: Vec<bool> = Vec::new();
        let mut i: usize = 0;
        while i < n
            invariant
                i <= n,
                bits@.len() == i,
                forall|j: int| 0 <= j < i ==> !bits@[j],
            decreases n - i,
        {
            bits.push(false);
            i = i + 1;
        }
        BitMask { bits }
    }

    /// An all-one mask of `n` bits.
    pub fn ones(n: usize) -> (r: Self)
        ensures
            r@.len() == n,
            forall|i: int| 0 <= i < n ==> r@[i],
    {
        let mut bits: Vec<bool> = Vec::new();
        let mut i: usize = 0;
        while i < n
            invariant
                i <= n,
                bits@.len() == i,
                forall|j: int| 0 <= j < i ==> bits@[j],
            decreases n - i,
        {
            bits.push(true);
            i = i + 1;
        }
        BitMask { bits }
    }

    /// Number of bits.
    pub fn len(&self) -> (r: usize)
        ensures
            r == self@.len(),
    {
        self.bits.len()
    }

    /// The bit at a position known to be in range.
    pub fn bit(&self, index: usize) -> (r: bool)
        requires
            index < self@.len(),
        ensures
            r == self@[index as int],
    {
        self.bits[index]
    }

    /// The bit at `index`; fails on an out-of-range index.
    pub fn get(&self, index: usize) -> (r: Result<bool, BitMaskError>)
        ensures
            index < self@.len() ==> r == Ok::<bool, BitMaskError>(self@[index as int]),
            index >= self@.len() ==> r == Err::<bool, BitMaskError>(BitMaskError::IndexOutOfRange),
    {
        if index < self.bits.len() {
            Ok(self.bits[index])
        } else {
            Err(BitMaskError::IndexOutOfRange)
        }
    }

    /// Sets the bit at `index` to `value`; fails on an out-of-range index,
    /// leaving the mask unchanged.
    pub fn set(&mut self, index: usize, value: bool) -> (r: Result<(), BitMaskError>)
        ensures
            index < old(self)@.len() ==> r == Ok::<(), BitMaskError>(())
                && final(self)@ == old(self)@.update(index as int, value),
            index >= old(self)@.len() ==> r == Err::<(), BitMaskError>(
                BitMaskError::IndexOutOfRange,
            ) && final(self)@ == old(self)@,
    {
        if index < self.bits.len() {
            self.bits.set(index, value);
            Ok(())
        } else {
            Err(BitMaskError::IndexOutOfRange)
        }
    }

    /// Number of set bits.
    pub fn count_ones(&self) -> (r: usize)
        ensures
            r == popcount(self@),
    {
        let mut count: usize = 0;
        let mut i: usize = 0;
        while i < self.bits.len()
            invariant
                i <= self.bits.len(),
                count == popcount(self.bits@.take(i as int)),
                count <= i,
            decreases self.bits.len() - i,
        {
            proof {
                let prefix = self.bits@.take(i + 1int);
                assert(prefix.drop_last() =~= self.bits@.take(i as int));
                assert(prefix.last() == self.bits@[i as int]);
            }
            if self.bits[i] {
                count = count + 1;
            }
            i = i + 1;
        }
        proof {
            assert(self.bits@.take(self.bits@.len() as int) =~= self.bits@);
        }
        count
    }

    /// Index of the lowest set bit, or the length when no bit is set.
    pub fn trailing_zeros(&self) -> (r: usize)
        ensures
            r <= self@.len(),
            r < self@.len() ==> self@[r as int],
            forall|j: int| 0 <= j < r ==> !self@[j],
            r == self@.len() ==> popcount(self@) == 0,
    {
        let mut i: usize = 0;
        while i < self.bits.len()
            invariant
                i <= self.bits.len(),
                forall|j: int| 0 <= j < i ==> !self.bits@[j],
            decreases self.bits.len() - i,
        {
            if self.bits[i] {
                return i;
            }
            i = i + 1;
        }
        proof {
            lemma_popcount_zero(self@);
        }
        i
    }

    /// Bitwise AND with an equal-length mask.
    pub fn and(&self, other: &BitMask) -> (r: BitMask)
        requires
            self@.len() == other@.len(),
        ensures
            r@.len() == self@.len(),
            forall|i: int| 0 <= i < r@.len() ==> r@[i] == (self@[i] && other@[i]),
    {
        let mut bits: Vec<bool> = Vec::new();
        let mut i: usize = 0;
        while i < self.bits.len()
            invariant
                i <= self.bits.len(),
                self.bits@.len() == other.bits@.len(),
                bits@.len() == i,
                forall|j: int| 0 <= j < i ==> bits@[j] == (self.bits@[j] && other.bits@[j]),
            decreases self.bits.len() - i,
        {
            bits.push(self.bits[i] && other.bits[i]);
            i = i + 1;
        }
        BitMask { bits }
    }

    /// Bitwise OR with an equal-length mask.
    pub fn or(&self, other: &BitMask) -> (r: BitMask)
        requires
            self@.len() == other@.len(),
        ensures
            r@.len() == self@.len(),
            forall|i: int| 0 <= i < r@.len() ==> r@[i] == (self@[i] || other@[i]),
    {
        let mut bits: Vec<bool> = Vec::new();
        let mut i: usize = 0;
        while i < self.bits.len()
            invariant
                i <= self.bits.len(),
                self.bits@.len() == other.bits@.len(),
                bits@.len() == i,
                forall|j: int| 0 <= j < i ==> bits@[j] == (self.bits@[j] || other.bits@[j]),
            decreases self.bits.len() - i,
        {
            bits.push(self.bits[i] || other.bits[i]);
            i = i + 1;
        }
        BitMask { bits }
    }
}

impl PartialEq for BitMask {
    /// Two masks are equal when their bit sequences are equal.
    fn eq(&self, other: &Self) -> (r: bool) {
        if self.bits.len() != other.bits.len() {
            return false;
        }
        let mut i: usize = 0;
        while i < self.bits.len()
            invariant
                i <= self.bits.len(),
                self.bits@.len() == other.bits@.len(),
                forall|j: int| 0 <= j < i ==> self.bits@[j] == other.bits@[j],
            decreases self.bits.len() - i,
        {
            if self.bits[i] != other.bits[i] {
                return false;
            }
            i = i + 1;
        }
        proof {
            assert(self.bits@ =~= other.bits@);
        }
        true
    }
}

impl Eq for BitMask {}

impl vstd::std_specs::cmp::PartialEqSpecImpl for BitMask {
    open spec fn obeys_eq_spec() -> bool {
        true
    }

    open spec fn eq_spec(&self, other: &BitMask) -> bool {
        self@ == other@
    }
}

} // verus!
