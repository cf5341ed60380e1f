//! A retained clue together with its presentation to the solver.

use vstd::prelude::*;

use crate::rule::RuleV;
use crate::rules::Rules;
use crate::verifiers::{Verifier, VerifierV};

verus! {

/// A verifier wrapped with a human description and a list of plausible rule
/// phrasings; the verifier's true rule is among them, unmarked.
pub struct Criteria {
    pub verif: Verifier,
    pub description: String,
    pub rules: Rules,
}

/// The abstract value of a criteria.
pub struct CriteriaV {
    pub verif: VerifierV,
    pub description: Seq<char>,
    pub rules: Seq<RuleV>,
}

impl View for Criteria {
    type V = CriteriaV;

    open spec fn view(&self) -> CriteriaV {
        CriteriaV { verif: self.verif@, description: self.description@, rules: self.rules@ }
    }
}

/// The criteria's decoy list holds the verifier's true rule.
pub open spec fn criteria_has_true_rule(c: CriteriaV) -> bool {
    exists|i: int| 0 <= i < c.rules.len() && c.rules[i] == c.verif.rule
}

impl Clone for Criteria {
    /// A cloned criteria has the same abstract value.
    fn clone(&self) -> (r: Self)
        ensures
            r@ == self@,
    {
        Criteria {
            verif: self.verif.clone(),
            description: self.description.clone(),
            rules: self.rules.clone(),
        }
    }
}

} // verus!
