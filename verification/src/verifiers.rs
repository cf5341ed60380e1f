//! A rule bound to its precomputed solution-space bitmask.

use vstd::prelude::*;

use crate::bitmask::BitMask;
use crate::error::EnigmindError;
use crate::rule::{rule_in_bounds, rule_mask_spec, Rule, RuleV};
use crate::setup::GameConfiguration;

verus! {

/// A clue of the puzzle: a rule with the bitmask of all candidates that
/// satisfy it, computed once at construction.
pub struct Verifier {
    pub rule: Rule,
    pub mask: BitMask,
}

/// The abstract value of a verifier.
pub struct VerifierV {
    pub rule: RuleV,
    pub mask: Seq<bool>,
}

impl View for Verifier {
    type V = VerifierV;

    open spec fn view(&self) -> VerifierV {
        VerifierV { rule: self.rule@, mask: self.mask@ }
    }
}

/// A verifier is coherent for a configuration when its mask is exactly the
/// mask of its rule over the configuration's solution space.
pub open spec fn verifier_coherent(v: VerifierV, gc: GameConfiguration) -> bool {
    v.mask == rule_mask_spec(v.rule, gc)
}

impl Verifier {
    /// A verifier for `rule`, with the mask materialized over the whole
    /// solution space; fails when the rule references a column the
    /// configuration does not have.
    pub fn new(gc: &GameConfiguration, rule: Rule) -> (r: Result<Self, EnigmindError>)
        requires
            gc.wf(),
        ensures
            rule_in_bounds(rule@, gc.column_count as int) ==> (r matches Ok(v) && v@.rule == rule@
                && verifier_coherent(v@, *gc)),
            !rule_in_bounds(rule@, gc.column_count as int) ==> r == Err::<Verifier, EnigmindError>(
                EnigmindError::ColumnIndexOutOfBounds,
            ),
    {
        match rule.get_mask(gc) {
            Ok(mask) => Ok(Verifier { rule, mask }),
            Err(e) => Err(e),
        }
    }
}

impl Clone for Verifier {
    /// A cloned verifier has the same rule and mask.
    fn clone(&self) -> (r: Self)
        ensures
            r@ == self@,
    {
        Verifier { rule: self.rule.clone(), mask: self.mask.clone() }
    }
}

impl PartialEq for Verifier {
    /// Two verifiers are equal when both their rules and their masks are.
    fn eq(&self, other: &Self) -> (r: bool) {
        self.rule == other.rule && self.mask == other.mask
    }
}

impl Eq for Verifier {}

impl vstd::std_specs::cmp::PartialEqSpecImpl for Verifier {
    open spec fn obeys_eq_spec() -> bool {
        true
    }

    open spec fn eq_spec(&self, other: &Verifier) -> bool {
        self@ == other@
    }
}

/// The ordered list of verifiers retained for a game.
pub struct Verificators(pub Vec<Verifier>);

/// The abstract values of a list of verifiers.
pub open spec fn verifier_views(s: Seq<Verifier>) -> Seq<VerifierV> {
    s.map_values(|v: Verifier| v@)
}

impl View for Verificators {
    type V = Seq<VerifierV>;

    open spec fn view(&self) -> Seq<VerifierV> {
        verifier_views(self.0@)
    }
}

/// Bit `b` is set in every mask of `vs`.
pub open spec fn bit_in_all(vs: Seq<VerifierV>, b: int) -> bool {
    forall|j: int| 0 <= j < vs.len() ==> vs[j].mask[b]
}

/// The intersection of all masks of `vs` over an `n`-bit solution space:
/// a candidate survives when every verifier's mask keeps it.
pub open spec fn and_mask(vs: Seq<VerifierV>, n: nat) -> Seq<bool> {
    Seq::new(n, |b: int| bit_in_all(vs, b))
}

/// Some element of `vs` has the abstract value `x`.
pub open spec fn has_verifier(vs: Seq<VerifierV>, x: VerifierV) -> bool {
    exists|j: int| 0 <= j < vs.len() && vs[j] == x
}

/// Appending a verifier refines the intersection by its mask.
pub proof fn lemma_bit_in_all_push(vs: Seq<VerifierV>, x: VerifierV, b: int)
    ensures
        bit_in_all(vs.push(x), b) == (bit_in_all(vs, b) && x.mask[b]),
{
    let p = vs.push(x);
    assert(p[vs.len() as int] == x);
    assert(forall|j: int| 0 <= j < vs.len() ==> p[j] == vs[j]);
    if bit_in_all(vs, b) && x.mask[b] {
        assert forall|j: int| 0 <= j < p.len() implies p[j].mask[b] by {
            if j < vs.len() {
                assert(p[j] == vs[j]);
            }
        }
    }
}

/// Removing one verifier splits the intersection into the rest and the
/// removed mask.
pub proof fn lemma_bit_in_all_remove(vs: Seq<VerifierV>, k: int, b: int)
    requires
        0 <= k < vs.len(),
    ensures
        bit_in_all(vs, b) == (bit_in_all(vs.remove(k), b) && vs[k].mask[b]),
{
    let r = vs.remove(k);
    assert(forall|j: int| 0 <= j < k ==> r[j] == vs[j]);
    assert(forall|j: int| k <= j < r.len() ==> r[j] == vs[j + 1]);
    if bit_in_all(vs, b) {
        assert forall|j: int| 0 <= j < r.len() implies r[j].mask[b] by {
            if j < k {
                assert(r[j] == vs[j]);
            } else {
                assert(r[j] == vs[j + 1]);
            }
        }
    }
    if bit_in_all(r, b) && vs[k].mask[b] {
        assert forall|j: int| 0 <= j < vs.len() implies vs[j].mask[b] by {
            if j < k {
                assert(r[j] == vs[j]);
            } else if j > k {
                assert(r[j - 1] == vs[j]);
            }
        }
    }
}

/// The intersection of a suffix splits off its first mask.
pub proof fn lemma_bit_in_all_skip(vs: Seq<VerifierV>, i: int, b: int)
    requires
        0 <= i < vs.len(),
    ensures
        bit_in_all(vs.skip(i), b) == (vs[i].mask[b] && bit_in_all(vs.skip(i + 1), b)),
{
    let s0 = vs.skip(i);
    let s1 = vs.skip(i + 1);
    assert(forall|j: int| 0 <= j < s0.len() ==> s0[j] == vs[i + j]);
    assert(forall|j: int| 0 <= j < s1.len() ==> s1[j] == vs[i + 1 + j]);
    if bit_in_all(s0, b) {
        assert(s0[0].mask[b]);
        assert forall|j: int| 0 <= j < s1.len() implies s1[j].mask[b] by {
            assert(s1[j] == s0[j + 1]);
        }
    }
    if vs[i].mask[b] && bit_in_all(s1, b) {
        assert forall|j: int| 0 <= j < s0.len() implies s0[j].mask[b] by {
            if j > 0 {
                assert(s0[j] == s1[j - 1]);
            }
        }
    }
}

/// Two lists with the same members intersect to the same bits.
pub proof fn lemma_bit_in_all_same_members(a: Seq<VerifierV>, c: Seq<VerifierV>, b: int)
    requires
        forall|x: VerifierV| has_verifier(a, x) == has_verifier(c, x),
    ensures
        bit_in_all(a, b) == bit_in_all(c, b),
{
    if bit_in_all(a, b) {
        assert forall|j: int| 0 <= j < c.len() implies c[j].mask[b] by {
            assert(has_verifier(c, c[j]));
            assert(has_verifier(a, c[j]));
            let i = choose|i: int| 0 <= i < a.len() && a[i] == c[j];
            assert(a[i].mask[b]);
        }
    }
    if bit_in_all(c, b) {
        assert forall|j: int| 0 <= j < a.len() implies a[j].mask[b] by {
            assert(has_verifier(a, a[j]));
            assert(has_verifier(c, a[j]));
            let i = choose|i: int| 0 <= i < c.len() && c[i] == a[j];
            assert(c[i].mask[b]);
        }
    }
}

/// Membership after appending a verifier.
pub proof fn lemma_has_verifier_push(vs: Seq<VerifierV>, v: VerifierV, x: VerifierV)
    ensures
        has_verifier(vs.push(v), x) == (has_verifier(vs, x) || v == x),
{
    let p = vs.push(v);
    assert(p[vs.len() as int] == v);
    assert(forall|j: int| 0 <= j < vs.len() ==> p[j] == vs[j]);
    if has_verifier(p, x) {
        let j = choose|j: int| 0 <= j < p.len() && p[j] == x;
        if j < vs.len() {
            assert(vs[j] == x);
        }
    }
    if has_verifier(vs, x) {
        let j = choose|j: int| 0 <= j < vs.len() && vs[j] == x;
        assert(p[j] == x);
    }
}

/// Membership after removing a verifier.
pub proof fn lemma_has_verifier_remove(vs: Seq<VerifierV>, k: int, x: VerifierV)
    requires
        0 <= k < vs.len(),
    ensures
        has_verifier(vs, x) == (has_verifier(vs.remove(k), x) || vs[k] == x),
{
    let r = vs.remove(k);
    assert(forall|j: int| 0 <= j < k ==> r[j] == vs[j]);
    assert(forall|j: int| k <= j < r.len() ==> r[j] == vs[j + 1]);
    if has_verifier(vs, x) {
        let j = choose|j: int| 0 <= j < vs.len() && vs[j] == x;
        if j < k {
            assert(r[j] == x);
        } else if j > k {
            assert(r[j - 1] == x);
        }
    }
    if has_verifier(r, x) {
        let j = choose|j: int| 0 <= j < r.len() && r[j] == x;
        if j < k {
            assert(vs[j] == x);
        } else {
            assert(vs[j + 1] == x);
        }
    }
}

impl Verificators {
    /// Number of verifiers.
    pub fn len(&self) -> (r: usize)
        ensures
            r == self@.len(),
    {
        self.0.len()
    }

    /// The verifier at `i`.
    pub fn get(&self, i: usize) -> (r: &Verifier)
        requires
            i < self@.len(),
        ensures
            r@ == self@[i as int],
    {
        &self.0[i]
    }
}

impl From<Vec<Verifier>> for Verificators {
    /// Wraps a vector of verifiers.
    fn from(v: Vec<Verifier>) -> (r: Self) {
        Verificators(v)
    }
}

impl vstd::std_specs::convert::FromSpecImpl<Vec<Verifier>> for Verificators {
    open spec fn obeys_from_spec() -> bool {
        true
    }

    open spec fn from_spec(v: Vec<Verifier>) -> Self {
        Verificators(v)
    }
}

} // verus!
