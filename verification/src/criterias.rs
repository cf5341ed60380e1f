//! The ordered list of criteria of a game.

use vstd::prelude::*;

use crate::criteria::{Criteria, CriteriaV};
use crate::verifiers::VerifierV;

verus! {

/// The verifiers of a list of criterias, in order.
pub open spec fn criteria_verifiers(cs: Seq<CriteriaV>) -> Seq<VerifierV> {
    cs.map_values(|c: CriteriaV| c.verif)
}

/// The criterias of a game, in acceptance order.
pub struct Criterias(pub Vec<Criteria>);

impl View for Criterias {
    type V = Seq<CriteriaV>;

    open spec fn view(&self) -> Seq<CriteriaV> {
        self.0@.map_values(|c: Criteria| c@)
    }
}

impl Criterias {
    /// Number of criterias.
    pub fn len(&self) -> (r: usize)
        ensures
            r == self@.len(),
    {
        self.0.len()
    }

    /// Whether the game has no criterias.
    pub fn is_empty(&self) -> (r: bool)
        ensures
            r == (self@.len() == 0),
    {
        self.0.len() == 0
    }

    /// The criteria at `i`.
    pub fn get(&self, i: usize) -> (r: &Criteria)
        requires
            i < self@.len(),
        ensures
            r@ == self@[i as int],
    {
        &self.0[i]
    }
}

impl Clone for Criterias {
    /// A cloned list has the same criterias.
    fn clone(&self) -> (r: Self)
        ensures
            r@ == self@,
    {
        let mut v: Vec<Criteria> = Vec::new();
        let mut i: usize = 0;
        while i < self.0.len()
            invariant
                i <= self.0.len(),
                v@.len() == i,
                forall|j: int| 0 <= j < i ==> v@[j]@ == self.0@[j]@,
            decreases self.0.len() - i,
        {
            v.push(self.0[i].clone());
            i = i + 1;
        }
        let r = Criterias(v);
        proof {
            assert(r@ =~= self@);
        }
        r
    }
}

impl From<Vec<Criteria>> for Criterias {
    /// Wraps a vector of criterias.
    fn from(v: Vec<Criteria>) -> (r: Self) {
        Criterias(v)
    }
}

impl vstd::std_specs::convert::FromSpecImpl<Vec<Criteria>> for Criterias {
    open spec fn obeys_from_spec() -> bool {
        true
    }

    open spec fn from_spec(v: Vec<Criteria>) -> Self {
        Criterias(v)
    }
}

} // verus!
