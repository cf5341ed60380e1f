//! An unordered, deduplicated collection of columns.

use vstd::prelude::*;

use crate::column::Column;

verus! {

/// A set of distinct columns, used to parameterize a rule.
///
/// The columns are held sorted by index, so that two sets with the same
/// members are equal values. The abstract value is the sequence of indices
/// in increasing order.
#[derive(Debug)]
pub struct ColumnSet(pub Vec<Column>);

/// A strictly increasing sequence of column indices.
pub open spec fn sorted_distinct(s: Seq<u8>) -> bool {
    forall|i: int, j: int| 0 <= i < j < s.len() ==> s[i] < s[j]
}

/// Every index in `cs` is below `len`.
pub open spec fn cols_in_bounds(cs: Seq<u8>, len: int) -> bool {
    forall|i: int| 0 <= i < cs.len() ==> cs[i] < len
}

/// A strictly increasing sequence has at least `i` values below its
/// element at `i`, so its length is at most any bound on its elements.
pub proof fn lemma_sorted_element_at_least(s: Seq<u8>, i: int)
    requires
        sorted_distinct(s),
        0 <= i < s.len(),
    ensures
        s[i] >= i,
    decreases i,
{
    if i > 0 {
        lemma_sorted_element_at_least(s, i - 1);
        assert(s[i - 1] < s[i]);
    }
}

/// A sorted, deduplicated sequence of indices below `bound` has at most
/// `bound` members.
pub proof fn lemma_sorted_len_le_bound(s: Seq<u8>, bound: int)
    requires
        bound >= 0,
        sorted_distinct(s),
        cols_in_bounds(s, bound),
    ensures
        s.len() <= bound,
{
    if s.len() > 0 {
        lemma_sorted_element_at_least(s, s.len() - 1);
        assert(s[s.len() - 1] < bound);
    }
}

impl View for ColumnSet {
    type V = Seq<u8>;

    open spec fn view(&self) -> Seq<u8> {
        self.0@.map_values(|c: Column| c.0)
    }
}

impl ColumnSet {
    /// The collection is sorted by index, without duplicates.
    pub open spec fn wf(&self) -> bool {
        sorted_distinct(self@)
    }

    /// Every member is below `bound`.
    pub open spec fn bounded(&self, bound: u8) -> bool {
        cols_in_bounds(self@, bound as int)
    }

    /// The set with no columns.
    pub fn empty() -> (r: Self)
        ensures
            r@ =~= Seq::<u8>::empty(),
            r.wf(),
    {
        ColumnSet(Vec::new())
    }

    /// Number of columns in the set.
    pub fn len(&self) -> (r: usize)
        ensures
            r == self@.len(),
    {
        self.0.len()
    }

    /// Whether the set has no columns.
    pub fn is_empty(&self) -> (r: bool)
        ensures
            r == (self@.len() == 0),
    {
        self.0.len() == 0
    }

    /// The column at `i` in increasing index order.
    pub fn get(&self, i: usize) -> (r: Column)
        requires
            i < self@.len(),
        ensures
            r.0 == self@[i as int],
    {
        self.0[i]
    }

    /// Whether `index` is a member.
    pub fn contains(&self, index: u8) -> (r: bool)
        ensures
            r == self@.contains(index),
    {
        let mut i: usize = 0;
        while i < self.0.len()
            invariant
                i <= self.0.len(),
                forall|j: int| 0 <= j < i ==> self@[j] != index,
            decreases self.0.len() - i,
        {
            if self.0[i].0 == index {
                assert(self@[i as int] == index);
                return true;
            }
            i = i + 1;
        }
        false
    }

    /// This set extended with a column above all current members.
    pub fn extended(&self, c: Column) -> (r: Self)
        requires
            self.wf(),
            forall|i: int| 0 <= i < self@.len() ==> self@[i] < c.0,
        ensures
            r@ =~= self@.push(c.0),
            r.wf(),
    {
        let mut cols: Vec<Column> = Vec::new();
        let mut i: usize = 0;
        while i < self.0.len()
            invariant
                i <= self.0.len(),
                cols@ =~= self.0@.take(i as int),
            decreases self.0.len() - i,
        {
            cols.push(self.0[i]);
            i = i + 1;
        }
        assert(cols@ =~= self.0@);
        cols.push(c);
        let r = ColumnSet(cols);
        assert(r@ =~= self@.push(c.0));
        r
    }
}

impl Clone for ColumnSet {
    /// A cloned set has the same members.
    fn clone(&self) -> (r: Self)
        ensures
            r@ == self@,
            r.wf() == self.wf(),
    {
        let mut cols: Vec<Column> = Vec::new();
        let mut i: usize = 0;
        while i < self.0.len()
            invariant
                i <= self.0.len(),
                cols@ =~= self.0@.take(i as int),
            decreases self.0.len() - i,
        {
            cols.push(self.0[i]);
            i = i + 1;
        }
        assert(cols@ =~= self.0@);
        let r = ColumnSet(cols);
        assert(r@ =~= self@);
        r
    }
}

impl PartialEq for ColumnSet {
    /// Two sets are equal when they have the same members.
    fn eq(&self, other: &Self) -> (r: bool) {
        if self.0.len() != other.0.len() {
            assert(self@.len() != other@.len());
            return false;
        }
        let mut i: usize = 0;
        while i < self.0.len()
            invariant
                i <= self.0.len(),
                self.0@.len() == other.0@.len(),
                forall|j: int| 0 <= j < i ==> self@[j] == other@[j],
            decreases self.0.len() - i,
        {
            if self.0[i].0 != other.0[i].0 {
                assert(self@[i as int] != other@[i as int]);
                return false;
            }
            assert(self@[i as int] == other@[i as int]);
            i = i + 1;
        }
        proof {
            assert(self@ =~= other@);
        }
        true
    }
}

impl Eq for ColumnSet {}

impl vstd::std_specs::cmp::PartialEqSpecImpl for ColumnSet {
    open spec fn obeys_eq_spec() -> bool {
        true
    }

    open spec fn eq_spec(&self, other: &ColumnSet) -> bool {
        self@ == other@
    }
}

} // verus!
