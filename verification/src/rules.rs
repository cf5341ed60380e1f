//! An ordered collection of rules.

use vstd::prelude::*;

use crate::rule::{Rule, RuleV};

verus! {

/// A list of rules, e.g. the filtered rule universe of a configuration or
/// the decoy phrasings of a criteria.
pub struct Rules(pub Vec<Rule>);

/// The abstract values of a list of rules.
pub open spec fn rule_views(s: Seq<Rule>) -> Seq<RuleV> {
    s.map_values(|r: Rule| r@)
}

impl View for Rules {
    type V = Seq<RuleV>;

    open spec fn view(&self) -> Seq<RuleV> {
        rule_views(self.0@)
    }
}

/// Some element of `v` is the rule `rv`.
pub open spec fn contains_rule(v: Seq<RuleV>, rv: RuleV) -> bool {
    exists|k: int| 0 <= k < v.len() && v[k] == rv
}

impl Rules {
    /// The empty list.
    pub fn new() -> (r: Self)
        ensures
            r@ =~= Seq::<RuleV>::empty(),
    {
        Rules(Vec::new())
    }

    /// Number of rules.
    pub fn len(&self) -> (r: usize)
        ensures
            r == self@.len(),
    {
        self.0.len()
    }

    /// Whether the list has no rules.
    pub fn is_empty(&self) -> (r: bool)
        ensures
            r == (self@.len() == 0),
    {
        self.0.len() == 0
    }

    /// The rule at `i`.
    pub fn get(&self, i: usize) -> (r: &Rule)
        requires
            i < self@.len(),
        ensures
            r@ == self@[i as int],
    {
        &self.0[i]
    }

    /// Appends a rule.
    pub fn push(&mut self, rule: Rule)
        ensures
            final(self)@ == old(self)@.push(rule@),
    {
        let ghost before = self@;
        self.0.push(rule);
        proof {
            assert(self@ =~= before.push(rule@));
        }
    }
}

impl Clone for Rules {
    /// A cloned list has the same rules.
    fn clone(&self) -> (r: Self)
        ensures
            r@ == self@,
    {
        let mut v: Vec<Rule> = Vec::new();
        let mut i: usize = 0;
        while i < self.0.len()
            invariant
                i <= self.0.len(),
                v@.len() == i,
                forall|j: int| 0 <= j < i ==> v@[j]@ == self.0@[j]@,
            decreases self.0.len() - i,
        {
            v.push(self.0[i].clone());
            i = i + 1;
        }
        let r = Rules(v);
        proof {
            assert(r@ =~= self@);
        }
        r
    }
}

impl From<Vec<Rule>> for Rules {
    /// Wraps a vector of rules.
    fn from(v: Vec<Rule>) -> (r: Self) {
        Rules(v)
    }
}

impl vstd::std_specs::convert::FromSpecImpl<Vec<Rule>> for Rules {
    open spec fn obeys_from_spec() -> bool {
        true
    }

    open spec fn from_spec(v: Vec<Rule>) -> Self {
        Rules(v)
    }
}

impl From<Rules> for Vec<Rule> {
    /// Unwraps the vector of rules.
    fn from(rs: Rules) -> (r: Self) {
        rs.0
    }
}

impl vstd::std_specs::convert::FromSpecImpl<Rules> for Vec<Rule> {
    open spec fn obeys_from_spec() -> bool {
        true
    }

    open spec fn from_spec(rs: Rules) -> Self {
        rs.0
    }
}

} // verus!
