//! Game configuration and assembly.

use vstd::prelude::*;

use vstd::arithmetic::power::{lemma_pow_positive, pow};

use crate::bitmask::{lemma_popcount_subset, lemma_popcount_zero, popcount, BitMask};
use crate::code::{code_wf, lemma_decode_then_encode, shift_of, Code};
use crate::codec::{criteria_encodable, game_encodable, rule_encodable};
use crate::column::Column;
use crate::columns::{cols_in_bounds, lemma_sorted_len_le_bound, sorted_distinct, ColumnSet};
use crate::criteria::{criteria_has_true_rule, Criteria, CriteriaV};
use crate::criterias::{criteria_verifiers, Criterias};
use crate::error::EnigmindError;
use crate::rule::{
    rule_in_bounds, rule_mask_spec, rule_valid, same_family, similar_group_of, similar_groups_wf,
    Operator, Rule, RuleV,
};
use crate::rules::{contains_rule, rule_views, Rules};
use crate::verifiers::{
    and_mask, bit_in_all, has_verifier, lemma_bit_in_all_push, lemma_bit_in_all_remove,
    lemma_bit_in_all_same_members, lemma_bit_in_all_skip, lemma_has_verifier_push,
    lemma_has_verifier_remove, verifier_coherent, verifier_views, Verificators, Verifier,
    VerifierV,
};

verus! {

/// A sorted, deduplicated sequence of column indices below `bound`.
pub open spec fn subset_bounded(s: Seq<u8>, bound: u8) -> bool {
    sorted_distinct(s) && cols_in_bounds(s, bound as int)
}

/// The canonical form of a nonempty column subset of a configuration with
/// `bound` columns.
pub open spec fn valid_subset(s: Seq<u8>, bound: u8) -> bool {
    subset_bounded(s, bound) && s.len() >= 1
}

/// Some element of `v` has exactly the members `s`.
pub open spec fn contains_subset(v: Seq<ColumnSet>, s: Seq<u8>) -> bool {
    exists|k: int| 0 <= k < v.len() && v[k]@ == s
}

/// The pair of columns at indices `a` and `b`.
pub open spec fn pair_of(a: u8, b: u8) -> (Column, Column) {
    (Column(a), Column(b))
}

/// Some element of `v` is the pair of columns `a` and `b`.
pub open spec fn contains_pair(v: Seq<(Column, Column)>, a: u8, b: u8) -> bool {
    exists|k: int| 0 <= k < v.len() && v[k] == pair_of(a, b)
}

/// `v` holds the pair of every two columns `a < b < cc` with `a < lim`.
pub open spec fn pairs_complete(v: Seq<(Column, Column)>, lim: u8, cc: u8) -> bool {
    forall|a: u8, b: u8| a < lim && a < b < cc ==> #[trigger] contains_pair(v, a, b)
}

/// `v` holds the pair of column `a` with every column of `(a, lim)`.
pub open spec fn pairs_row_complete(v: Seq<(Column, Column)>, a: u8, lim: u8) -> bool {
    forall|b: u8| a < b < lim ==> #[trigger] contains_pair(v, a, b)
}

/// No two elements of `v` have the same members.
pub open spec fn subsets_distinct(v: Seq<ColumnSet>) -> bool {
    forall|k1: int, k2: int| 0 <= k1 < k2 < v.len() ==> v[k1]@ != v[k2]@
}

/// The parameters of a game: number of digit positions, digit base, and the
/// minimal difficulty (in percent of the solution space) a clue must reach.
#[derive(Debug, Clone, Copy, PartialEq, Eq, Structural)]
pub struct GameConfiguration {
    pub column_count: u8,
    pub base: u8,
    pub min_difficulty: u8,
}

impl GameConfiguration {
    /// Size of the full candidate universe: `base ^ column_count`.
    pub open spec fn solution_count_spec(&self) -> int {
        pow(self.base as int, self.column_count as nat)
    }

    /// A configuration the generator can work with: a nonempty digit
    /// alphabet, and a solution space and rule thresholds that fit the
    /// machine integers used to hold them.
    pub open spec fn wf(&self) -> bool {
        &&& 1 <= self.base
        &&& self.column_count <= 31
        &&& self.solution_count_spec() <= u32::MAX
        &&& self.column_count as int * self.base as int <= 255
    }

    /// Size of the full candidate universe.
    pub fn solution_count(&self) -> (r: u32)
        requires
            self.solution_count_spec() <= u32::MAX,
        ensures
            r == self.solution_count_spec(),
    {
        crate::code::pow_u32(self.base, self.column_count)
    }

    /// Every column of the configuration, in index order.
    pub fn get_all_columns(&self) -> (r: Vec<Column>)
        ensures
            r@.len() == self.column_count,
            forall|i: int| 0 <= i < r@.len() ==> r@[i].0 == i,
    {
        let mut v: Vec<Column> = Vec::new();
        let mut i: u8 = 0;
        while i < self.column_count
            invariant
                i <= self.column_count,
                v@.len() == i,
                forall|j: int| 0 <= j < i ==> v@[j].0 == j,
            decreases self.column_count - i,
        {
            v.push(Column(i));
            i = i + 1;
        }
        v
    }

    /// Every ordered pair of columns with the first index below the second.
    pub fn get_all_column_pairs(&self) -> (r: Vec<(Column, Column)>)
        ensures
            forall|k: int|
                0 <= k < r@.len() ==> ((#[trigger] r@[k]).0.0 < r@[k].1.0 && r@[k].1.0
                    < self.column_count),
            forall|k1: int, k2: int|
                0 <= k1 < k2 < r@.len() ==> ((#[trigger] r@[k1]).0.0 < (#[trigger] r@[k2]).0.0 || (
                r@[k1].0.0 == r@[k2].0.0 && r@[k1].1.0 < r@[k2].1.0)),
            forall|k1: int, k2: int| 0 <= k1 < k2 < r@.len() ==> r@[k1] != r@[k2],
            pairs_complete(r@, self.column_count, self.column_count),
            2 * r@.len() == self.column_count as int * (self.column_count as int - 1),
            r@.len() == self.column_count as int * (self.column_count as int - 1) / 2,
    {
        let mut v: Vec<(Column, Column)> = Vec::new();
        let cc = self.column_count;
        let mut i: u8 = 0;
        proof {
            assert(pairs_complete(v@, 0, cc));
        }
        while i < cc
            invariant
                i <= cc,
                cc == self.column_count,
                forall|k: int|
                    0 <= k < v@.len() ==> ((#[trigger] v@[k]).0.0 < v@[k].1.0 && v@[k].1.0 < cc),
                forall|k: int| 0 <= k < v@.len() ==> (#[trigger] v@[k]).0.0 < i,
                forall|k1: int, k2: int|
                    0 <= k1 < k2 < v@.len() ==> ((#[trigger] v@[k1]).0.0 < (
                    #[trigger] v@[k2]).0.0 || (v@[k1].0.0 == v@[k2].0.0 && v@[k1].1.0
                        < v@[k2].1.0)),
                forall|k1: int, k2: int| 0 <= k1 < k2 < v@.len() ==> v@[k1] != v@[k2],
                pairs_complete(v@, i, cc),
                2 * v@.len() == i as int * (2 * cc as int - i as int - 1),
            decreases cc - i,
        {
            let mut j: u8 = i + 1;
            proof {
                assert(pairs_row_complete(v@, i, j));
            }
            while j < cc
                invariant
                    i < j || j == i + 1,
                    i < cc,
                    j <= cc,
                    cc == self.column_count,
                    forall|k: int|
                        0 <= k < v@.len() ==> ((#[trigger] v@[k]).0.0 < v@[k].1.0 && v@[k].1.0
                            < cc),
                    forall|k: int|
                        0 <= k < v@.len() ==> ((#[trigger] v@[k]).0.0 < i || (v@[k].0.0 == i
                            && v@[k].1.0 < j)),
                    forall|k1: int, k2: int|
                        0 <= k1 < k2 < v@.len() ==> ((#[trigger] v@[k1]).0.0 < (
                        #[trigger] v@[k2]).0.0 || (v@[k1].0.0 == v@[k2].0.0 && v@[k1].1.0
                            < v@[k2].1.0)),
                    forall|k1: int, k2: int| 0 <= k1 < k2 < v@.len() ==> v@[k1] != v@[k2],
                    pairs_complete(v@, i, cc),
                    pairs_row_complete(v@, i, j),
                    2 * v@.len() == i as int * (2 * cc as int - i as int - 1) + 2 * (j as int
                        - i as int - 1),
                decreases cc - j,
            {
                let ghost v0 = v@;
                v.push((Column(i), Column(j)));
                proof {
                    assert(v@[v@.len() - 1] == pair_of(i, j));
                    assert forall|a: u8, b: u8|
                        a < i && a < b < cc implies #[trigger] contains_pair(v@, a, b) by {
                        assert(contains_pair(v0, a, b));
                        let k = choose|k: int| 0 <= k < v0.len() && v0[k] == pair_of(a, b);
                        assert(v@[k] == pair_of(a, b));
                    }
                    assert(pairs_complete(v@, i, cc));
                    assert forall|b: u8|
                        i < b < j + 1 implies #[trigger] contains_pair(v@, i, b) by {
                        if b < j {
                            assert(contains_pair(v0, i, b));
                            let k = choose|k: int| 0 <= k < v0.len() && v0[k] == pair_of(i, b);
                            assert(v@[k] == pair_of(i, b));
                        } else {
                            assert(v@[v@.len() - 1] == pair_of(i, j));
                        }
                    }
                    assert(pairs_row_complete(v@, i, (j + 1) as u8));
                }
                j = j + 1;
            }
            proof {
                assert forall|a: u8, b: u8|
                    a < (i + 1) as u8 && a < b < cc implies #[trigger] contains_pair(v@, a, b) by {
                    if a >= i {
                        assert(a == i);
                        assert(contains_pair(v@, i, b));
                    }
                }
                assert(pairs_complete(v@, (i + 1) as u8, cc));
                assert(2 * v@.len() == (i + 1) as int * (2 * cc as int - (i + 1) as int - 1))
                    by (nonlinear_arith)
                    requires
                        2 * v@.len() == i as int * (2 * cc as int - i as int - 1) + 2 * (cc as int
                            - i as int - 1),
                ;
            }
            i = i + 1;
        }
        proof {
            assert(2 * v@.len() == cc as int * (cc as int - 1)) by (nonlinear_arith)
                requires
                    2 * v@.len() == cc as int * (2 * cc as int - cc as int - 1),
            ;
            assert(v@.len() == cc as int * (cc as int - 1) / 2) by {
                vstd::arithmetic::div_mod::lemma_div_multiples_vanish(v@.len() as int, 2);
            }
        }
        v
    }

    /// Every distinct nonempty subset of the configuration's columns, each
    /// in canonical sorted form, each exactly once.
    pub fn get_all_column_combinations(&self) -> (r: Vec<ColumnSet>)
        ensures
            forall|k: int|
                0 <= k < r@.len() ==> ((#[trigger] r@[k]).wf() && r@[k]@.len() >= 1
                    && r@[k].bounded(self.column_count)),
            subsets_distinct(r@),
            forall|s: Seq<u8>|
                valid_subset(s, self.column_count) ==> #[trigger] contains_subset(r@, s),
            r@.len() == pow(2, self.column_count as nat) - 1,
    {
        let cc = self.column_count;
        let mut all: Vec<ColumnSet> = Vec::new();
        all.push(ColumnSet::empty());
        let mut j: u8 = 0;
        proof {
            vstd::arithmetic::power::lemma_pow0(2);
            assert forall|s: Seq<u8>| subset_bounded(s, 0) implies #[trigger] contains_subset(
                all@,
                s,
            ) by {
                if s.len() > 0 {
                    assert(s[0] < 0);
                } else {
                    assert(all@[0]@ =~= s);
                }
            }
        }
        while j < cc
            invariant
                j <= cc,
                cc == self.column_count,
                all@.len() >= 1,
                all@.len() == pow(2, j as nat),
                all@[0]@.len() == 0,
                forall|k: int|
                    0 <= k < all@.len() ==> ((#[trigger] all@[k]).wf() && all@[k].bounded(j)),
                subsets_distinct(all@),
                forall|s: Seq<u8>| subset_bounded(s, j) ==> #[trigger] contains_subset(all@, s),
            decreases cc - j,
        {
            let n = all.len();
            let ghost base = all@;
            let mut i: usize = 0;
            while i < n
                invariant
                    i <= n,
                    j < cc,
                    n == base.len(),
                    all@.len() == n + i,
                    forall|k: int| 0 <= k < n ==> all@[k] == base[k],
                    forall|k: int|
                        0 <= k < base.len() ==> ((#[trigger] base[k]).wf() && base[k].bounded(j)),
                    forall|k: int| 0 <= k < i ==> all@[n + k]@ == base[k]@.push(j),
                    forall|k: int|
                        0 <= k < all@.len() ==> ((#[trigger] all@[k]).wf() && all@[k].bounded(
                            (j + 1) as u8,
                        )),
                    subsets_distinct(all@),
                decreases n - i,
            {
                let cs = &all[i];
                proof {
                    assert(all@[i as int] == base[i as int]);
                    assert(base[i as int].wf() && base[i as int].bounded(j));
                }
                let ext = cs.extended(Column(j));
                proof {
                    assert(ext@.len() >= 1);
                    assert(ext@.last() == j);
                    assert forall|k: int| 0 <= k < all@.len() implies all@[k]@ != ext@ by {
                        if all@[k]@ == ext@ {
                            if k < n {
                                assert(all@[k] == base[k]);
                                assert(base[k].bounded(j));
                                assert(all@[k]@[ext@.len() - 1] == j);
                                assert(all@[k]@[ext@.len() - 1] < j);
                            } else {
                                assert(all@[k]@ == base[k - n]@.push(j));
                                assert(base[k - n]@ =~= base[i as int]@) by {
                                    assert(base[k - n]@.push(j).drop_last() =~= base[k - n]@);
                                    assert(base[i as int]@.push(j).drop_last() =~= base[
                                        i as int
                                    ]@);
                                }
                                assert(k - n < i);
                                assert(all@[k - n]@ == all@[i as int]@);
                            }
                        }
                    }
                }
                all.push(ext);
                i = i + 1;
            }
            proof {
                assert forall|s: Seq<u8>|
                    subset_bounded(s, (j + 1) as u8) implies #[trigger] contains_subset(
                    all@,
                    s,
                ) by {
                    if s.len() == 0 || s.last() < j {
                        assert(subset_bounded(s, j)) by {
                            assert forall|idx: int| 0 <= idx < s.len() implies s[idx] < j by {
                                if idx < s.len() - 1 {
                                    assert(s[idx] < s[s.len() - 1]);
                                }
                            }
                        }
                        assert(contains_subset(base, s));
                        let k = choose|k: int| 0 <= k < base.len() && base[k]@ == s;
                        assert(all@[k]@ == s);
                    } else {
                        let d = s.drop_last();
                        assert(s.last() == j) by {
                            assert(s[s.len() - 1] < j + 1);
                        }
                        assert(subset_bounded(d, j)) by {
                            assert forall|idx: int| 0 <= idx < d.len() implies d[idx] < j by {
                                assert(s[idx] < s[s.len() - 1]);
                            }
                        }
                        assert(contains_subset(base, d));
                        let m = choose|m: int| 0 <= m < base.len() && base[m]@ == d;
                        assert(all@[n + m]@ == base[m]@.push(j));
                        assert(d.push(s.last()) =~= s);
                        assert(all@[n + m]@ == s);
                    }
                }
            }
            proof {
                crate::code::lemma_pow_unfold(2, (j + 1) as nat);
            }
            j = j + 1;
        }
        let mut r: Vec<ColumnSet> = Vec::new();
        let mut t: usize = 1;
        while t < all.len()
            invariant
                1 <= t <= all@.len(),
                r@.len() == t - 1,
                cc == self.column_count,
                all@[0]@.len() == 0,
                forall|k: int|
                    0 <= k < all@.len() ==> ((#[trigger] all@[k]).wf() && all@[k].bounded(cc)),
                subsets_distinct(all@),
                forall|k: int| 0 <= k < r@.len() ==> r@[k]@ == all@[k + 1]@,
            decreases all@.len() - t,
        {
            r.push(all[t].clone());
            t = t + 1;
        }
        proof {
            assert forall|k: int|
                0 <= k < r@.len() implies ((#[trigger] r@[k]).wf() && r@[k]@.len() >= 1
                && r@[k].bounded(self.column_count)) by {
                assert(r@[k]@ == all@[k + 1]@);
                if r@[k]@.len() == 0 {
                    assert(all@[k + 1]@ =~= all@[0]@);
                }
            }
            assert forall|s: Seq<u8>|
                valid_subset(s, self.column_count) implies #[trigger] contains_subset(
                r@,
                s,
            ) by {
                assert(subset_bounded(s, cc));
                assert(contains_subset(all@, s));
                let k = choose|k: int| 0 <= k < all@.len() && all@[k]@ == s;
                assert(k != 0) by {
                    assert(s.len() >= 1);
                }
                assert(r@[k - 1]@ == s);
            }
        }
        r
    }

    /// Every distinct column subset of exactly `length` members, each in
    /// canonical sorted form, each exactly once.
    pub fn get_column_combinations(&self, length: u8) -> (r: Vec<ColumnSet>)
        ensures
            forall|k: int|
                0 <= k < r@.len() ==> ((#[trigger] r@[k]).wf() && r@[k]@.len() == length
                    && r@[k].bounded(self.column_count)),
            subsets_distinct(r@),
            forall|s: Seq<u8>|
                valid_subset(s, self.column_count) && s.len() == length
                    ==> #[trigger] contains_subset(r@, s),
            r@.len() < pow(2, self.column_count as nat),
    {
        let combos = self.get_all_column_combinations();
        let mut r: Vec<ColumnSet> = Vec::new();
        let ghost mut picked: Seq<int> = Seq::empty();
        let mut i: usize = 0;
        while i < combos.len()
            invariant
                i <= combos@.len(),
                forall|k: int|
                    0 <= k < combos@.len() ==> ((#[trigger] combos@[k]).wf() && combos@[k]@.len()
                        >= 1 && combos@[k].bounded(self.column_count)),
                subsets_distinct(combos@),
                picked.len() == r@.len(),
                r@.len() <= i,
                forall|k: int|
                    0 <= k < r@.len() ==> 0 <= #[trigger] picked[k] < i && r@[k]@
                        == combos@[picked[k]]@,
                forall|k1: int, k2: int| 0 <= k1 < k2 < picked.len() ==> picked[k1] < picked[k2],
                forall|k: int|
                    0 <= k < r@.len() ==> ((#[trigger] r@[k]).wf() && r@[k]@.len() == length
                        && r@[k].bounded(self.column_count)),
                forall|m: int|
                    0 <= m < i && (#[trigger] combos@[m]@).len() == length ==> contains_subset(
                        r@,
                        combos@[m]@,
                    ),
            decreases combos@.len() - i,
        {
            let ghost r0 = r@;
            let keep = combos[i].len() == length as usize;
            if keep {
                r.push(combos[i].clone());
                proof {
                    picked = picked.push(i as int);
                    assert(r@[r@.len() - 1]@ == combos@[i as int]@);
                    assert(contains_subset(r@, combos@[i as int]@));
                }
            }
            proof {
                assert forall|m: int|
                    0 <= m < i + 1 && (#[trigger] combos@[m]@).len()
                        == length implies contains_subset(r@, combos@[m]@) by {
                    if m < i {
                        assert(contains_subset(r0, combos@[m]@));
                        let k = choose|k: int| 0 <= k < r0.len() && r0[k]@ == combos@[m]@;
                        assert(r@[k]@ == combos@[m]@);
                    }
                }
            }
            i = i + 1;
        }
        proof {
            assert forall|k1: int, k2: int|
                0 <= k1 < k2 < r@.len() implies r@[k1]@ != r@[k2]@ by {
                assert(picked[k1] < picked[k2]);
                assert(combos@[picked[k1]]@ != combos@[picked[k2]]@);
            }
            assert forall|s: Seq<u8>|
                valid_subset(s, self.column_count) && s.len() == length
                    implies #[trigger] contains_subset(r@, s) by {
                assert(contains_subset(combos@, s));
                let m = choose|m: int| 0 <= m < combos@.len() && combos@[m]@ == s;
                assert(combos@[m]@.len() == length);
                assert(contains_subset(r@, combos@[m]@));
            }
        }
        r
    }
}


/// A fully assembled puzzle: configuration, ordered criteria, and the
/// secret code. The code is carried in plaintext; withholding it from the
/// player is the consumer's responsibility.
pub struct Game {
    pub configuration: GameConfiguration,
    pub criterias: Criterias,
    pub code: Code,
}

/// The abstract value of a game.
pub struct GameV {
    pub configuration: GameConfiguration,
    pub criterias: Seq<CriteriaV>,
    pub code: Seq<u8>,
}

impl View for Game {
    type V = GameV;

    open spec fn view(&self) -> GameV {
        GameV { configuration: self.configuration, criterias: self.criterias@, code: self.code@ }
    }
}

impl Game {
    /// Whether a code has the right number of digits, each below the base.
    pub fn is_solution_compatible(&self, code: &Code) -> (r: bool)
        ensures
            r == code_wf(code@, self.configuration),
    {
        if code.0.len() != self.configuration.column_count as usize {
            return false;
        }
        let mut i: usize = 0;
        while i < code.0.len()
            invariant
                i <= code@.len(),
                forall|j: int| 0 <= j < i ==> code@[j] < self.configuration.base,
            decreases code@.len() - i,
        {
            if code.0[i] >= self.configuration.base {
                return false;
            }
            i = i + 1;
        }
        true
    }

    /// The column index that a letter addresses: `A` is column zero. Any
    /// ASCII character from `A` up is accepted; whether the index names an
    /// existing column is `is_column_compatible`'s question.
    pub fn to_column_index(&self, column: char) -> (r: u8)
        requires
            65 <= column as u32,
            (column as u32) < 128,
        ensures
            r as u32 == column as u32 - 65,
    {
        ((column as u32) - 65) as u8
    }

    /// Whether a letter addresses a column of this game.
    pub fn is_column_compatible(&self, column: char) -> (r: bool)
        ensures
            r == (65 <= column as u32 && (column as u32) < 65
                + self.configuration.column_count as u32),
    {
        let v = column as u32;
        if v < 65 {
            return false;
        }
        v - 65 < self.configuration.column_count as u32
    }

    /// Whether a digit value is below the base of this game.
    pub fn is_value_compatible(&self, value: u8) -> (r: bool)
        ensures
            r == (value < self.configuration.base),
    {
        value < self.configuration.base
    }
}

/// A configuration from raw parameters, with the difficulty clamped to a
/// percentage.
pub fn generate_game_configuration(base: u8, column_count: u8, difficulty_pct: u8) -> (r:
    GameConfiguration)
    ensures
        r.base == base,
        r.column_count == column_count,
        r.min_difficulty == if difficulty_pct > 100 {
            100u8
        } else {
            difficulty_pct
        },
{
    let min_difficulty = if difficulty_pct > 100 {
        100
    } else {
        difficulty_pct
    };
    GameConfiguration { column_count, base, min_difficulty }
}

/// Membership in the rule universe of a configuration: one-column
/// even/odd/lowest/highest rules, sum rules over every distinct nonempty
/// column subset with thresholds below `size * base`, and count-of-value
/// rules for every count up to the column count and every digit value.
pub open spec fn in_universe(rv: RuleV, gc: GameConfiguration) -> bool {
    match rv {
        RuleV::MatchesOp(op, cs) => match op {
            Operator::Pair => cs.len() == 1 && cs[0] < gc.column_count,
            Operator::Impair => cs.len() == 1 && cs[0] < gc.column_count,
            Operator::Lowest => cs.len() == 1 && cs[0] < gc.column_count,
            Operator::Highest => cs.len() == 1 && cs[0] < gc.column_count,
            Operator::SumBelow(t) => valid_subset(cs, gc.column_count) && (t as int) < cs.len()
                * gc.base as int,
            Operator::SumEquals(t) => valid_subset(cs, gc.column_count) && (t as int) < cs.len()
                * gc.base as int,
            Operator::SumAbove(t) => valid_subset(cs, gc.column_count) && (t as int) < cs.len()
                * gc.base as int,
        },
        RuleV::XColumnsEquals(count, value) => count <= gc.column_count && value < gc.base,
    }
}

/// The difficulty filter: a rule survives when its mask keeps at least one
/// candidate and cuts away more than `min_difficulty` percent would allow,
/// i.e. the kept fraction of the space, in percent, is above the threshold.
pub open spec fn passes_difficulty(rv: RuleV, gc: GameConfiguration) -> bool {
    let ones = popcount(rule_mask_spec(rv, gc)) as int;
    ones > 0 && ones * 100 / gc.solution_count_spec() > gc.min_difficulty as int
}

/// Every one-column parity and extreme rule over each of the first `upto`
/// column sets of `singles` is present in `v`.
pub open spec fn singles_rules_present(v: Seq<RuleV>, singles: Seq<ColumnSet>, upto: int) -> bool {
    forall|m: int|
        0 <= m < upto ==> (contains_rule(
            v,
            RuleV::MatchesOp(Operator::Pair, (#[trigger] singles[m])@),
        ) && contains_rule(v, RuleV::MatchesOp(Operator::Impair, singles[m]@)) && contains_rule(
            v,
            RuleV::MatchesOp(Operator::Lowest, singles[m]@),
        ) && contains_rule(v, RuleV::MatchesOp(Operator::Highest, singles[m]@)))
}

/// Every sum rule over `cs` with a threshold below `upto_t` is present in
/// `v`.
pub open spec fn sum_rules_present_for(v: Seq<RuleV>, cs: Seq<u8>, upto_t: int) -> bool {
    forall|t: int|
        #![trigger contains_rule(v, RuleV::MatchesOp(Operator::SumBelow(t as u8), cs))]
        0 <= t < upto_t ==> (contains_rule(v, RuleV::MatchesOp(Operator::SumBelow(t as u8), cs))
            && contains_rule(v, RuleV::MatchesOp(Operator::SumEquals(t as u8), cs))
            && contains_rule(v, RuleV::MatchesOp(Operator::SumAbove(t as u8), cs)))
}

/// Every sum rule over each of the first `upto` column sets of `combos`,
/// with every threshold below the set's size times the base, is present in
/// `v`.
pub open spec fn sums_rules_present(
    v: Seq<RuleV>,
    combos: Seq<ColumnSet>,
    upto: int,
    base: u8,
) -> bool {
    forall|m: int|
        0 <= m < upto ==> sum_rules_present_for(
            v,
            (#[trigger] combos[m])@,
            combos[m]@.len() * base,
        )
}

/// Every count-of-value rule with a count below `upto_count` and a value
/// below `base` is present in `v`.
pub open spec fn xcols_rules_present(v: Seq<RuleV>, upto_count: int, base: u8) -> bool {
    forall|cnt: int, val: int|
        #![trigger contains_rule(v, RuleV::XColumnsEquals(cnt as u8, val as u8))]
        0 <= cnt < upto_count && 0 <= val < base ==> contains_rule(
            v,
            RuleV::XColumnsEquals(cnt as u8, val as u8),
        )
}

/// A rule present in a prefix is present in any extension.
pub proof fn lemma_contains_rule_prefix(v: Seq<RuleV>, w: Seq<RuleV>, rv: RuleV)
    requires
        v.len() <= w.len(),
        forall|k: int| 0 <= k < v.len() ==> v[k] == w[k],
    ensures
        contains_rule(v, rv) ==> contains_rule(w, rv),
{
    if contains_rule(v, rv) {
        let k = choose|k: int| 0 <= k < v.len() && v[k] == rv;
        assert(w[k] == rv);
    }
}

/// `singles_rules_present` carries over to any extension of the list.
proof fn lemma_singles_present_prefix(
    v: Seq<RuleV>,
    w: Seq<RuleV>,
    singles: Seq<ColumnSet>,
    upto: int,
)
    requires
        v.len() <= w.len(),
        forall|k: int| 0 <= k < v.len() ==> v[k] == w[k],
        singles_rules_present(v, singles, upto),
    ensures
        singles_rules_present(w, singles, upto),
{
    assert forall|m: int| 0 <= m < upto implies (contains_rule(
        w,
        RuleV::MatchesOp(Operator::Pair, (#[trigger] singles[m])@),
    ) && contains_rule(w, RuleV::MatchesOp(Operator::Impair, singles[m]@)) && contains_rule(
        w,
        RuleV::MatchesOp(Operator::Lowest, singles[m]@),
    ) && contains_rule(w, RuleV::MatchesOp(Operator::Highest, singles[m]@))) by {
        lemma_contains_rule_prefix(v, w, RuleV::MatchesOp(Operator::Pair, singles[m]@));
        lemma_contains_rule_prefix(v, w, RuleV::MatchesOp(Operator::Impair, singles[m]@));
        lemma_contains_rule_prefix(v, w, RuleV::MatchesOp(Operator::Lowest, singles[m]@));
        lemma_contains_rule_prefix(v, w, RuleV::MatchesOp(Operator::Highest, singles[m]@));
    }
}

/// `sum_rules_present_for` carries over to any extension of the list.
proof fn lemma_sum_for_prefix(v: Seq<RuleV>, w: Seq<RuleV>, cs: Seq<u8>, upto_t: int)
    requires
        v.len() <= w.len(),
        forall|k: int| 0 <= k < v.len() ==> v[k] == w[k],
        sum_rules_present_for(v, cs, upto_t),
    ensures
        sum_rules_present_for(w, cs, upto_t),
{
    assert forall|t: int|
        #![trigger contains_rule(w, RuleV::MatchesOp(Operator::SumBelow(t as u8), cs))]
        0 <= t < upto_t implies (contains_rule(
        w,
        RuleV::MatchesOp(Operator::SumBelow(t as u8), cs),
    ) && contains_rule(w, RuleV::MatchesOp(Operator::SumEquals(t as u8), cs)) && contains_rule(
        w,
        RuleV::MatchesOp(Operator::SumAbove(t as u8), cs),
    )) by {
        assert(contains_rule(v, RuleV::MatchesOp(Operator::SumBelow(t as u8), cs)));
        lemma_contains_rule_prefix(v, w, RuleV::MatchesOp(Operator::SumBelow(t as u8), cs));
        lemma_contains_rule_prefix(v, w, RuleV::MatchesOp(Operator::SumEquals(t as u8), cs));
        lemma_contains_rule_prefix(v, w, RuleV::MatchesOp(Operator::SumAbove(t as u8), cs));
    }
}

/// `sums_rules_present` carries over to any extension of the list.
proof fn lemma_sums_present_prefix(
    v: Seq<RuleV>,
    w: Seq<RuleV>,
    combos: Seq<ColumnSet>,
    upto: int,
    base: u8,
)
    requires
        v.len() <= w.len(),
        forall|k: int| 0 <= k < v.len() ==> v[k] == w[k],
        sums_rules_present(v, combos, upto, base),
    ensures
        sums_rules_present(w, combos, upto, base),
{
    assert forall|m: int| 0 <= m < upto implies sum_rules_present_for(
        w,
        (#[trigger] combos[m])@,
        combos[m]@.len() * base,
    ) by {
        lemma_sum_for_prefix(v, w, combos[m]@, combos[m]@.len() * base);
    }
}

/// `xcols_rules_present` carries over to any extension of the list.
proof fn lemma_xcols_present_prefix(v: Seq<RuleV>, w: Seq<RuleV>, upto_count: int, base: u8)
    requires
        v.len() <= w.len(),
        forall|k: int| 0 <= k < v.len() ==> v[k] == w[k],
        xcols_rules_present(v, upto_count, base),
    ensures
        xcols_rules_present(w, upto_count, base),
{
    assert forall|cnt: int, val: int|
        #![trigger contains_rule(w, RuleV::XColumnsEquals(cnt as u8, val as u8))]
        0 <= cnt < upto_count && 0 <= val < base implies contains_rule(
        w,
        RuleV::XColumnsEquals(cnt as u8, val as u8),
    ) by {
        assert(contains_rule(v, RuleV::XColumnsEquals(cnt as u8, val as u8)));
        lemma_contains_rule_prefix(v, w, RuleV::XColumnsEquals(cnt as u8, val as u8));
    }
}

/// Whether some rule of `v` has the abstract value of `rule`.
fn vec_contains_rule(v: &Vec<Rule>, rule: &Rule) -> (r: bool)
    ensures
        r == contains_rule(rule_views(v@), rule@),
{
    let mut i: usize = 0;
    while i < v.len()
        invariant
            i <= v@.len(),
            forall|k: int| 0 <= k < i ==> rule_views(v@)[k] != rule@,
        decreases v@.len() - i,
    {
        if v[i] == *rule {
            assert(rule_views(v@)[i as int] == rule@);
            return true;
        }
        proof {
            assert(rule_views(v@)[i as int] == v@[i as int]@);
        }
        i = i + 1;
    }
    proof {
        if contains_rule(rule_views(v@), rule@) {
            let k = choose|k: int| 0 <= k < rule_views(v@).len() && rule_views(v@)[k] == rule@;
        }
    }
    false
}

/// The full rule universe of a configuration, filtered by difficulty: the
/// result holds exactly the universe rules that survive the filter, each
/// exactly once.
pub fn generate_rules(gc: &GameConfiguration) -> (r: Result<Rules, EnigmindError>)
    requires
        gc.wf(),
    ensures
        r matches Ok(rules) && (forall|k: int|
            0 <= k < rules@.len() ==> rule_valid(#[trigger] rules@[k], *gc) && in_universe(
                rules@[k],
                *gc,
            ) && passes_difficulty(rules@[k], *gc)) && (forall|rv: RuleV|
            in_universe(rv, *gc) && passes_difficulty(rv, *gc) ==> #[trigger] contains_rule(
                rules@,
                rv,
            )) && (forall|k1: int, k2: int|
            0 <= k1 < k2 < rules@.len() ==> rules@[k1] != rules@[k2]),
{
    let mut rules: Vec<Rule> = Vec::new();
    let singles = gc.get_column_combinations(1);
    let mut i: usize = 0;
    while i < singles.len()
        invariant
            i <= singles@.len(),
            gc.wf(),
            forall|k: int|
                0 <= k < singles@.len() ==> ((#[trigger] singles@[k]).wf() && singles@[k]@.len()
                    == 1 && singles@[k].bounded(gc.column_count)),
            forall|k: int|
                0 <= k < rule_views(rules@).len() ==> rule_valid(
                    #[trigger] rule_views(rules@)[k],
                    *gc,
                ) && in_universe(rule_views(rules@)[k], *gc),
            singles_rules_present(rule_views(rules@), singles@, i as int),
        decreases singles@.len() - i,
    {
        let cs = &singles[i];
        let ghost before = rule_views(rules@);
        rules.push(Rule::MatchesOp(Operator::Pair, cs.clone()));
        rules.push(Rule::MatchesOp(Operator::Impair, cs.clone()));
        rules.push(Rule::MatchesOp(Operator::Lowest, cs.clone()));
        rules.push(Rule::MatchesOp(Operator::Highest, cs.clone()));
        proof {
            let after = rule_views(rules@);
            assert(after.len() == before.len() + 4);
            assert(forall|k: int| 0 <= k < before.len() ==> after[k] == before[k]);
            assert(after[before.len() as int] == RuleV::MatchesOp(Operator::Pair, cs@));
            assert(after[before.len() as int + 1] == RuleV::MatchesOp(Operator::Impair, cs@));
            assert(after[before.len() as int + 2] == RuleV::MatchesOp(Operator::Lowest, cs@));
            assert(after[before.len() as int + 3] == RuleV::MatchesOp(Operator::Highest, cs@));
            lemma_singles_present_prefix(before, after, singles@, i as int);
            assert(singles_rules_present(after, singles@, i + 1));
        }
        i = i + 1;
    }
    let ghost snap_a = rule_views(rules@);
    let combos = gc.get_all_column_combinations();
    let mut c: usize = 0;
    while c < combos.len()
        invariant
            c <= combos@.len(),
            gc.wf(),
            forall|k: int|
                0 <= k < combos@.len() ==> ((#[trigger] combos@[k]).wf() && combos@[k]@.len() >= 1
                    && combos@[k].bounded(gc.column_count)),
            forall|k: int|
                0 <= k < rule_views(rules@).len() ==> rule_valid(
                    #[trigger] rule_views(rules@)[k],
                    *gc,
                ) && in_universe(rule_views(rules@)[k], *gc),
            snap_a.len() <= rule_views(rules@).len(),
            forall|k: int| 0 <= k < snap_a.len() ==> snap_a[k] == rule_views(rules@)[k],
            singles_rules_present(snap_a, singles@, singles@.len() as int),
            sums_rules_present(rule_views(rules@), combos@, c as int, gc.base),
        decreases combos@.len() - c,
    {
        let cs = &combos[c];
        proof {
            lemma_sorted_len_le_bound(cs@, gc.column_count as int);
            vstd::arithmetic::mul::lemma_mul_inequality(
                cs@.len() as int,
                gc.column_count as int,
                gc.base as int,
            );
        }
        let size = cs.len() as u8;
        let lim: u8 = size * gc.base;
        let mut t: u8 = 0;
        while t < lim
            invariant
                t <= lim,
                gc.wf(),
                cs == &combos@[c as int],
                c < combos@.len(),
                forall|k: int|
                    0 <= k < combos@.len() ==> ((#[trigger] combos@[k]).wf() && combos@[k]@.len()
                        >= 1 && combos@[k].bounded(gc.column_count)),
                lim == cs@.len() * gc.base,
                forall|k: int|
                    0 <= k < rule_views(rules@).len() ==> rule_valid(
                        #[trigger] rule_views(rules@)[k],
                        *gc,
                    ) && in_universe(rule_views(rules@)[k], *gc),
                snap_a.len() <= rule_views(rules@).len(),
                forall|k: int| 0 <= k < snap_a.len() ==> snap_a[k] == rule_views(rules@)[k],
                sums_rules_present(rule_views(rules@), combos@, c as int, gc.base),
                sum_rules_present_for(rule_views(rules@), cs@, t as int),
            decreases lim - t,
        {
            let ghost before = rule_views(rules@);
            rules.push(Rule::MatchesOp(Operator::SumBelow(t), cs.clone()));
            rules.push(Rule::MatchesOp(Operator::SumEquals(t), cs.clone()));
            rules.push(Rule::MatchesOp(Operator::SumAbove(t), cs.clone()));
            proof {
                let after = rule_views(rules@);
                assert(after.len() == before.len() + 3);
                assert(forall|k: int| 0 <= k < before.len() ==> after[k] == before[k]);
                assert(after[before.len() as int] == RuleV::MatchesOp(Operator::SumBelow(t), cs@));
                assert(after[before.len() as int + 1] == RuleV::MatchesOp(Operator::SumEquals(t), cs@));
                assert(after[before.len() as int + 2] == RuleV::MatchesOp(Operator::SumAbove(t), cs@));
                lemma_sums_present_prefix(before, after, combos@, c as int, gc.base);
                lemma_sum_for_prefix(before, after, cs@, t as int);
                assert((t as int) as u8 == t);
                assert(sum_rules_present_for(after, cs@, t + 1));
            }
            t = t + 1;
        }
        proof {
            assert(sums_rules_present(rule_views(rules@), combos@, c + 1, gc.base)) by {
                assert forall|m: int| 0 <= m < c + 1 implies sum_rules_present_for(
                    rule_views(rules@),
                    (#[trigger] combos@[m])@,
                    combos@[m]@.len() * gc.base,
                ) by {
                    if m == c {
                        assert(sum_rules_present_for(rule_views(rules@), cs@, lim as int));
                    }
                }
            }
        }
        c = c + 1;
    }
    let ghost snap_b = rule_views(rules@);
    let mut count: u16 = 0;
    while count <= gc.column_count as u16
        invariant
            count <= gc.column_count as u16 + 1,
            gc.wf(),
            forall|k: int|
                0 <= k < rule_views(rules@).len() ==> rule_valid(
                    #[trigger] rule_views(rules@)[k],
                    *gc,
                ) && in_universe(rule_views(rules@)[k], *gc),
            snap_b.len() <= rule_views(rules@).len(),
            forall|k: int| 0 <= k < snap_b.len() ==> snap_b[k] == rule_views(rules@)[k],
            xcols_rules_present(rule_views(rules@), count as int, gc.base),
        decreases gc.column_count as u16 + 1 - count,
    {
        let mut value: u8 = 0;
        while value < gc.base
            invariant
                value <= gc.base,
                count <= gc.column_count as u16,
                gc.wf(),
                forall|k: int|
                    0 <= k < rule_views(rules@).len() ==> rule_valid(
                        #[trigger] rule_views(rules@)[k],
                        *gc,
                    ) && in_universe(rule_views(rules@)[k], *gc),
                snap_b.len() <= rule_views(rules@).len(),
                forall|k: int| 0 <= k < snap_b.len() ==> snap_b[k] == rule_views(rules@)[k],
                xcols_rules_present(rule_views(rules@), count as int, gc.base),
                forall|val: int|
                    #![trigger contains_rule(rule_views(rules@), RuleV::XColumnsEquals(count as u8, val as u8))]
                    0 <= val < value ==> contains_rule(
                        rule_views(rules@),
                        RuleV::XColumnsEquals(count as u8, val as u8),
                    ),
            decreases gc.base - value,
        {
            let ghost before = rule_views(rules@);
            rules.push(Rule::XColumnsEquals(count as u8, value));
            proof {
                let after = rule_views(rules@);
                assert(after.len() == before.len() + 1);
                assert(forall|k: int| 0 <= k < before.len() ==> after[k] == before[k]);
                assert(after[before.len() as int] == RuleV::XColumnsEquals(count as u8, value));
                lemma_xcols_present_prefix(before, after, count as int, gc.base);
                assert forall|val: int|
                    #![trigger contains_rule(after, RuleV::XColumnsEquals(count as u8, val as u8))]
                    0 <= val < value + 1 implies contains_rule(
                    after,
                    RuleV::XColumnsEquals(count as u8, val as u8),
                ) by {
                    if val < value {
                        assert(contains_rule(
                            before,
                            RuleV::XColumnsEquals(count as u8, val as u8),
                        ));
                        lemma_contains_rule_prefix(
                            before,
                            after,
                            RuleV::XColumnsEquals(count as u8, val as u8),
                        );
                    } else {
                        assert((val as u8) == value);
                    }
                }
            }
            value = value + 1;
        }
        proof {
            assert forall|cnt: int, val: int|
                #![trigger contains_rule(rule_views(rules@), RuleV::XColumnsEquals(cnt as u8, val as u8))]
                0 <= cnt < count + 1 && 0 <= val < gc.base implies contains_rule(
                rule_views(rules@),
                RuleV::XColumnsEquals(cnt as u8, val as u8),
            ) by {
                if cnt == count as int {
                    assert((cnt as u8) == count as u8);
                }
            }
            assert(xcols_rules_present(rule_views(rules@), count + 1, gc.base));
        }
        count = count + 1;
    }
    let ghost all_views = rule_views(rules@);
    let n = gc.solution_count();
    proof {
        lemma_pow_positive(gc.base as int, gc.column_count as nat);
    }
    let mut kept: Vec<Rule> = Vec::new();
    let mut k: usize = 0;
    while k < rules.len()
        invariant
            k <= rules@.len(),
            gc.wf(),
            n == gc.solution_count_spec(),
            n >= 1,
            all_views == rule_views(rules@),
            forall|m: int|
                0 <= m < rule_views(rules@).len() ==> rule_valid(
                    #[trigger] rule_views(rules@)[m],
                    *gc,
                ) && in_universe(rule_views(rules@)[m], *gc),
            forall|m: int|
                0 <= m < rule_views(kept@).len() ==> rule_valid(
                    #[trigger] rule_views(kept@)[m],
                    *gc,
                ) && in_universe(rule_views(kept@)[m], *gc) && passes_difficulty(
                    rule_views(kept@)[m],
                    *gc,
                ),
            forall|m1: int, m2: int|
                0 <= m1 < m2 < rule_views(kept@).len() ==> rule_views(kept@)[m1] != rule_views(
                    kept@,
                )[m2],
            forall|m: int|
                0 <= m < k && passes_difficulty(#[trigger] rule_views(rules@)[m], *gc)
                    ==> contains_rule(rule_views(kept@), rule_views(rules@)[m]),
        decreases rules@.len() - k,
    {
        let rule = &rules[k];
        proof {
            assert(rule@ == rule_views(rules@)[k as int]);
            assert(rule_valid(rule@, *gc));
            assert(rule_in_bounds(rule@, gc.column_count as int));
        }
        let mask = match rule.get_mask(gc) {
            Ok(m) => m,
            Err(e) => {
                proof {
                    assert(false);
                }
                return Err(e);
            },
        };
        let ones = mask.count_ones();
        proof {
            assert(mask@ == rule_mask_spec(rule@, *gc));
            crate::bitmask::lemma_popcount_le_len(mask@);
        }
        let difficulty = (ones as u64) * 100 / (n as u64);
        let ghost kept0 = rule_views(kept@);
        let mut took = false;
        if ones > 0 && difficulty > gc.min_difficulty as u64 {
            if !vec_contains_rule(&kept, rule) {
                kept.push(rule.clone());
                took = true;
                proof {
                    assert(rule_views(kept@) =~= kept0.push(rule@));
                    assert(passes_difficulty(rule@, *gc));
                    assert forall|m1: int, m2: int|
                        0 <= m1 < m2 < rule_views(kept@).len() implies rule_views(kept@)[m1]
                        != rule_views(kept@)[m2] by {
                        if m2 == rule_views(kept@).len() - 1 {
                            if rule_views(kept@)[m1] == rule@ {
                                assert(kept0[m1] == rule@);
                                assert(contains_rule(kept0, rule@));
                            }
                        } else {
                            assert(rule_views(kept@)[m1] == kept0[m1]);
                            assert(rule_views(kept@)[m2] == kept0[m2]);
                        }
                    }
                }
            }
        }
        proof {
            assert forall|m: int|
                0 <= m < k + 1 && passes_difficulty(#[trigger] rule_views(rules@)[m], *gc)
                    implies contains_rule(rule_views(kept@), rule_views(rules@)[m]) by {
                if m < k {
                    assert(contains_rule(kept0, rule_views(rules@)[m]));
                    if took {
                        lemma_contains_rule_prefix(
                            kept0,
                            rule_views(kept@),
                            rule_views(rules@)[m],
                        );
                    }
                } else {
                    if took {
                        assert(rule_views(kept@)[rule_views(kept@).len() - 1] == rule_views(
                            rules@,
                        )[m]);
                    } else {
                        if ones > 0 && difficulty > gc.min_difficulty as u64 {
                            assert(contains_rule(rule_views(kept@), rule@));
                        }
                    }
                }
            }
        }
        k = k + 1;
    }
    let out = Rules(kept);
    proof {
        assert forall|rv: RuleV|
            in_universe(rv, *gc) && passes_difficulty(rv, *gc) implies #[trigger] contains_rule(
            out@,
            rv,
        ) by {
            match rv {
                RuleV::MatchesOp(op, cs) => match op {
                    Operator::SumBelow(x) => {
                        assert(valid_subset(cs, gc.column_count));
                        assert(contains_subset(combos@, cs));
                        let m = choose|m: int| 0 <= m < combos@.len() && combos@[m]@ == cs;
                        assert(sum_rules_present_for(snap_b, cs, cs.len() * gc.base));
                        assert(contains_rule(
                            snap_b,
                            RuleV::MatchesOp(Operator::SumBelow((x as int) as u8), cs),
                        ));
                        assert((x as int) as u8 == x);
                        lemma_contains_rule_prefix(snap_b, all_views, rv);
                    },
                    Operator::SumEquals(x) => {
                        assert(valid_subset(cs, gc.column_count));
                        assert(contains_subset(combos@, cs));
                        let m = choose|m: int| 0 <= m < combos@.len() && combos@[m]@ == cs;
                        assert(sum_rules_present_for(snap_b, cs, cs.len() * gc.base));
                        assert(contains_rule(
                            snap_b,
                            RuleV::MatchesOp(Operator::SumBelow((x as int) as u8), cs),
                        ));
                        assert((x as int) as u8 == x);
                        lemma_contains_rule_prefix(snap_b, all_views, rv);
                    },
                    Operator::SumAbove(x) => {
                        assert(valid_subset(cs, gc.column_count));
                        assert(contains_subset(combos@, cs));
                        let m = choose|m: int| 0 <= m < combos@.len() && combos@[m]@ == cs;
                        assert(sum_rules_present_for(snap_b, cs, cs.len() * gc.base));
                        assert(contains_rule(
                            snap_b,
                            RuleV::MatchesOp(Operator::SumBelow((x as int) as u8), cs),
                        ));
                        assert((x as int) as u8 == x);
                        lemma_contains_rule_prefix(snap_b, all_views, rv);
                    },
                    _ => {
                        assert(cs.len() == 1 && cs[0] < gc.column_count);
                        assert(sorted_distinct(cs));
                        assert(valid_subset(cs, gc.column_count));
                        assert(contains_subset(singles@, cs));
                        let m = choose|m: int| 0 <= m < singles@.len() && singles@[m]@ == cs;
                        assert(contains_rule(snap_a, rv));
                        lemma_contains_rule_prefix(snap_a, all_views, rv);
                    },
                },
                RuleV::XColumnsEquals(cnt, value) => {
                    assert(contains_rule(
                        all_views,
                        RuleV::XColumnsEquals((cnt as int) as u8, (value as int) as u8),
                    ));
                    assert((cnt as int) as u8 == cnt && (value as int) as u8 == value);
                },
            }
            assert(contains_rule(all_views, rv));
            let mm = choose|mm: int| 0 <= mm < all_views.len() && all_views[mm] == rv;
            assert(passes_difficulty(rule_views(rules@)[mm], *gc));
            assert(contains_rule(rule_views(kept@), rv));
        }
    }
    Ok(out)
}

/// How many random draws the reduction loop may spend before giving up
/// with a generation failure instead of looping forever.
pub const MAX_DRAW_ATTEMPTS: usize = 100000;

/// Verifiers reordered by descending mask population; the members are
/// exactly those of the input.
fn sort_verifiers_desc(input: Vec<Verifier>) -> (r: Vec<Verifier>)
    ensures
        r@.len() == input@.len(),
        forall|x: VerifierV|
            #[trigger] has_verifier(verifier_views(r@), x) == has_verifier(
                verifier_views(input@),
                x,
            ),
        forall|k1: int, k2: int|
            0 <= k1 < k2 < r@.len() ==> popcount(r@[k1]@.mask) >= popcount(r@[k2]@.mask),
{
    let ghost orig = verifier_views(input@);
    let ghost total = input@.len();
    let mut rem = input;
    let mut out: Vec<Verifier> = Vec::new();
    while rem.len() > 0
        invariant
            out@.len() + rem@.len() == total,
            forall|x: VerifierV|
                (has_verifier(verifier_views(out@), x) || has_verifier(
                    verifier_views(rem@),
                    x,
                )) == #[trigger] has_verifier(orig, x),
            forall|k1: int, k2: int|
                0 <= k1 < k2 < out@.len() ==> popcount(out@[k1]@.mask) >= popcount(
                    out@[k2]@.mask,
                ),
            forall|k1: int, k2: int|
                0 <= k1 < out@.len() && 0 <= k2 < rem@.len() ==> popcount(out@[k1]@.mask)
                    >= popcount(rem@[k2]@.mask),
        decreases rem@.len(),
    {
        let mut best: usize = 0;
        let mut best_ones = rem[0].mask.count_ones();
        let mut t: usize = 1;
        while t < rem.len()
            invariant
                rem@.len() >= 1,
                t <= rem@.len(),
                best < rem@.len(),
                best_ones == popcount(rem@[best as int]@.mask),
                forall|k: int| 0 <= k < t ==> popcount(rem@[k]@.mask) <= best_ones,
            decreases rem@.len() - t,
        {
            let o = rem[t].mask.count_ones();
            if o > best_ones {
                best = t;
                best_ones = o;
            }
            t = t + 1;
        }
        let ghost rem0 = verifier_views(rem@);
        let ghost out0 = verifier_views(out@);
        let v = rem.remove(best);
        out.push(v);
        proof {
            assert(verifier_views(rem@) =~= rem0.remove(best as int));
            assert(verifier_views(out@) =~= out0.push(rem0[best as int]));
            assert forall|x: VerifierV|
                (has_verifier(verifier_views(out@), x) || has_verifier(
                    verifier_views(rem@),
                    x,
                )) == #[trigger] has_verifier(orig, x) by {
                lemma_has_verifier_remove(rem0, best as int, x);
                lemma_has_verifier_push(out0, rem0[best as int], x);
            }
            assert forall|k2: int| 0 <= k2 < rem@.len() implies popcount(
                out@[out@.len() - 1]@.mask,
            ) >= popcount(rem@[k2]@.mask) by {
                if k2 < best {
                    assert(rem@[k2]@ == rem0[k2]);
                } else {
                    assert(rem@[k2]@ == rem0[k2 + 1]);
                }
            }
        }
    }
    proof {
        assert forall|x: VerifierV|
            #[trigger] has_verifier(verifier_views(out@), x) == has_verifier(orig, x) by {
            assert(!has_verifier(verifier_views(rem@), x));
        }
    }
    out
}

/// The randomized greedy reduction: draws rules from the universe until
/// the working mask keeps a single candidate, then drops every verifier
/// whose mask adds no discriminating power beyond the others (a single
/// pass in descending mask population order, the order the result keeps).
/// On success the intersection of the returned verifiers' masks keeps
/// exactly one candidate, the returned code, and no verifier is redundant:
/// removing any one strictly grows the intersection. A one-candidate space
/// succeeds outright with no verifiers; failure can come only from a space
/// that still holds several candidates.
pub fn generate_verificators(
    rng: &mut rand::rngs::StdRng,
    ruleset: &Rules,
    gc: &GameConfiguration,
) -> (r: Result<(Code, Verificators), EnigmindError>)
    requires
        gc.wf(),
        forall|k: int| 0 <= k < ruleset@.len() ==> rule_valid(#[trigger] ruleset@[k], *gc),
    ensures
        (match r {
            Ok(res) => {
                let n = gc.solution_count_spec() as nat;
                let vs = res.1@;
                let code = res.0@;
                &&& code_wf(code, *gc)
                &&& forall|j: int|
                    0 <= j < vs.len() ==> verifier_coherent(#[trigger] vs[j], *gc) && rule_valid(
                        vs[j].rule,
                        *gc,
                    ) && contains_rule(ruleset@, vs[j].rule)
                &&& popcount(and_mask(vs, n)) == 1
                &&& 0 <= shift_of(code, gc.base as int) < n
                &&& and_mask(vs, n)[shift_of(code, gc.base as int)]
                &&& vs.len() <= MAX_DRAW_ATTEMPTS
                &&& forall|k1: int, k2: int|
                    0 <= k1 < k2 < vs.len() ==> popcount((#[trigger] vs[k1]).mask) >= popcount(
                        (#[trigger] vs[k2]).mask,
                    )
                &&& forall|k: int|
                    0 <= k < vs.len() ==> popcount(and_mask(#[trigger] vs.remove(k), n))
                        > popcount(and_mask(vs, n))
            },
            Err(e) => e == EnigmindError::GenerationFailed && gc.solution_count_spec() > 1,
        }),
        gc.solution_count_spec() == 1 ==> r is Ok,
        (ruleset@.len() == 0 && gc.solution_count_spec() > 1) ==> r is Err,
{
    let n32 = gc.solution_count();
    let n = n32 as usize;
    proof {
        lemma_pow_positive(gc.base as int, gc.column_count as nat);
    }
    let mut w = BitMask::ones(n);
    let mut ones_w = w.count_ones();
    proof {
        lemma_popcount_zero(w@);
    }
    let mut accepted: Vec<Verifier> = Vec::new();
    let mut attempts: usize = 0;
    while ones_w > 1 && attempts < MAX_DRAW_ATTEMPTS
        invariant
            gc.wf(),
            n == gc.solution_count_spec(),
            n >= 1,
            forall|k: int| 0 <= k < ruleset@.len() ==> rule_valid(#[trigger] ruleset@[k], *gc),
            w@.len() == n,
            ones_w == popcount(w@),
            ones_w >= 1,
            attempts <= MAX_DRAW_ATTEMPTS,
            accepted@.len() <= attempts,
            forall|b: int| 0 <= b < n ==> w@[b] == bit_in_all(verifier_views(accepted@), b),
            forall|j: int|
                0 <= j < accepted@.len() ==> verifier_coherent(
                    #[trigger] verifier_views(accepted@)[j],
                    *gc,
                ) && rule_valid(verifier_views(accepted@)[j].rule, *gc) && contains_rule(
                    ruleset@,
                    verifier_views(accepted@)[j].rule,
                ) && verifier_views(accepted@)[j].mask.len() == n,
        decreases MAX_DRAW_ATTEMPTS - attempts,
    {
        if ruleset.is_empty() {
            proof {
                crate::bitmask::lemma_popcount_le_len(w@);
            }
            return Err(EnigmindError::GenerationFailed);
        }
        let pick = crate::rng::rng_below(rng, ruleset.len());
        let rule = ruleset.get(pick);
        let rule_mask = match rule.get_mask(gc) {
            Ok(m) => m,
            Err(e) => {
                proof {
                    assert(rule_valid(ruleset@[pick as int], *gc));
                    assert(false);
                }
                return Err(EnigmindError::GenerationFailed);
            },
        };
        let cand = w.and(&rule_mask);
        let ones_cand = cand.count_ones();
        if ones_cand == 0 {
            // the rule would eliminate every remaining candidate
        } else if cand == w {
            // the rule adds no information against the current state
        } else {
            let ghost av0 = verifier_views(accepted@);
            let ghost mv = rule_mask@;
            let ghost rv = rule@;
            accepted.push(Verifier { rule: rule.clone(), mask: rule_mask });
            proof {
                let nv = VerifierV { rule: rv, mask: mv };
                assert(verifier_views(accepted@) =~= av0.push(nv));
                assert forall|b: int| 0 <= b < n implies cand@[b] == bit_in_all(
                    verifier_views(accepted@),
                    b,
                ) by {
                    lemma_bit_in_all_push(av0, nv, b);
                }
                assert forall|j: int| 0 <= j < accepted@.len() implies verifier_coherent(
                    #[trigger] verifier_views(accepted@)[j],
                    *gc,
                ) && rule_valid(verifier_views(accepted@)[j].rule, *gc) && contains_rule(
                    ruleset@,
                    verifier_views(accepted@)[j].rule,
                ) && verifier_views(accepted@)[j].mask.len() == n by {
                    if j == accepted@.len() - 1 {
                        assert(verifier_views(accepted@)[j] == nv);
                        assert(ruleset@[pick as int] == rv);
                    } else {
                        assert(verifier_views(accepted@)[j] == av0[j]);
                    }
                }
            }
            w = cand;
            ones_w = ones_cand;
        }
        attempts = attempts + 1;
    }
    if ones_w > 1 {
        proof {
            crate::bitmask::lemma_popcount_le_len(w@);
        }
        return Err(EnigmindError::GenerationFailed);
    }
    let tz = w.trailing_zeros();
    proof {
        if tz == w@.len() {
            assert(popcount(w@) == 0);
        }
    }
    let code = Code::from_shift(tz as u32, gc);
    proof {
        lemma_decode_then_encode(tz as int, gc.base as int, gc.column_count as nat);
        assert(shift_of(code@, gc.base as int) == tz);
    }
    let ghost accv = verifier_views(accepted@);
    let sorted = sort_verifiers_desc(accepted);
    proof {
        assert forall|b: int| 0 <= b < n implies w@[b] == bit_in_all(
            verifier_views(sorted@),
            b,
        ) by {
            lemma_bit_in_all_same_members(accv, verifier_views(sorted@), b);
        }
        assert forall|j: int| 0 <= j < sorted@.len() implies verifier_coherent(
            #[trigger] verifier_views(sorted@)[j],
            *gc,
        ) && rule_valid(verifier_views(sorted@)[j].rule, *gc) && contains_rule(
            ruleset@,
            verifier_views(sorted@)[j].rule,
        ) && verifier_views(sorted@)[j].mask.len() == n by {
            let x = verifier_views(sorted@)[j];
            assert(has_verifier(verifier_views(sorted@), x));
            assert(has_verifier(accv, x));
            let i = choose|i: int| 0 <= i < accv.len() && accv[i] == x;
        }
    }
    let mut kept: Vec<Verifier> = Vec::new();
    let mut kept_and = BitMask::ones(n);
    let ghost mut wit: Seq<int> = Seq::empty();
    let mut idx: usize = 0;
    proof {
        assert(verifier_views(sorted@).skip(0) =~= verifier_views(sorted@));
    }
    while idx < sorted.len()
        invariant
            idx <= sorted@.len(),
            gc.wf(),
            n == gc.solution_count_spec(),
            n >= 1,
            w@.len() == n,
            kept_and@.len() == n,
            forall|j: int|
                0 <= j < sorted@.len() ==> verifier_coherent(
                    #[trigger] verifier_views(sorted@)[j],
                    *gc,
                ) && rule_valid(verifier_views(sorted@)[j].rule, *gc) && contains_rule(
                    ruleset@,
                    verifier_views(sorted@)[j].rule,
                ) && verifier_views(sorted@)[j].mask.len() == n,
            forall|j: int|
                0 <= j < kept@.len() ==> verifier_coherent(
                    #[trigger] verifier_views(kept@)[j],
                    *gc,
                ) && rule_valid(verifier_views(kept@)[j].rule, *gc) && contains_rule(
                    ruleset@,
                    verifier_views(kept@)[j].rule,
                ) && verifier_views(kept@)[j].mask.len() == n,
            forall|b: int| 0 <= b < n ==> kept_and@[b] == bit_in_all(verifier_views(kept@), b),
            forall|b: int|
                0 <= b < n ==> w@[b] == (bit_in_all(verifier_views(kept@), b) && bit_in_all(
                    verifier_views(sorted@).skip(idx as int),
                    b,
                )),
            kept@.len() <= idx,
            forall|k1: int, k2: int|
                0 <= k1 < k2 < sorted@.len() ==> popcount(sorted@[k1]@.mask) >= popcount(
                    sorted@[k2]@.mask,
                ),
            forall|k1: int, k2: int|
                0 <= k1 < k2 < kept@.len() ==> popcount(verifier_views(kept@)[k1].mask)
                    >= popcount(verifier_views(kept@)[k2].mask),
            forall|k: int, j: int|
                0 <= k < kept@.len() && idx <= j < sorted@.len() ==> popcount(
                    verifier_views(kept@)[k].mask,
                ) >= popcount(sorted@[j]@.mask),
            wit.len() == kept@.len(),
            forall|k: int|
                0 <= k < kept@.len() ==> 0 <= #[trigger] wit[k] < n && !verifier_views(
                    kept@,
                )[k].mask[wit[k]] && bit_in_all(verifier_views(kept@).remove(k), wit[k])
                    && bit_in_all(verifier_views(sorted@).skip(idx as int), wit[k]),
        decreases sorted@.len() - idx,
    {
        let v = &sorted[idx];
        proof {
            assert(verifier_views(sorted@)[idx as int] == v@);
            assert(v@.mask.len() == n);
        }
        let mut other = kept_and.clone();
        let mut u = idx + 1;
        proof {
            assert(verifier_views(sorted@).subrange(idx + 1, idx + 1) =~= Seq::<
                VerifierV,
            >::empty());
        }
        while u < sorted.len()
            invariant
                idx < u <= sorted@.len(),
                idx < sorted@.len(),
                n >= 1,
                other@.len() == n,
                forall|j: int|
                    0 <= j < sorted@.len() ==> (#[trigger] verifier_views(sorted@)[j]).mask.len()
                        == n,
                forall|b: int|
                    0 <= b < n ==> other@[b] == (bit_in_all(verifier_views(kept@), b)
                        && bit_in_all(
                        verifier_views(sorted@).subrange(idx + 1, u as int),
                        b,
                    )),
            decreases sorted@.len() - u,
        {
            let ghost pre = verifier_views(sorted@).subrange(idx + 1, u as int);
            proof {
                assert(verifier_views(sorted@).subrange(idx + 1, u + 1) =~= pre.push(
                    verifier_views(sorted@)[u as int],
                ));
                assert(verifier_views(sorted@)[u as int] == sorted@[u as int]@);
            }
            let prev = other;
            other = prev.and(&sorted[u].mask);
            proof {
                assert forall|b: int| 0 <= b < n implies other@[b] == (bit_in_all(
                    verifier_views(kept@),
                    b,
                ) && bit_in_all(verifier_views(sorted@).subrange(idx + 1, u + 1), b)) by {
                    lemma_bit_in_all_push(pre, verifier_views(sorted@)[u as int], b);
                }
            }
            u = u + 1;
        }
        proof {
            assert(verifier_views(sorted@).subrange(idx + 1, sorted@.len() as int)
                =~= verifier_views(sorted@).skip(idx + 1));
        }
        let merged = v.mask.or(&other);
        let redundant = merged == v.mask;
        let ghost kv0 = verifier_views(kept@);
        let ghost svs = verifier_views(sorted@);
        if !redundant {
            proof {
                assert(exists|b: int| 0 <= b < n && merged@[b] != v.mask@[b]) by {
                    if forall|b: int| 0 <= b < n ==> merged@[b] == v.mask@[b] {
                        assert(merged@ =~= v.mask@);
                    }
                }
            }
            let ghost b0 = choose|b: int| 0 <= b < n && merged@[b] != v.mask@[b];
            proof {
                assert(!v.mask@[b0] && other@[b0]);
            }
            kept.push(v.clone());
            let prev_and = kept_and;
            kept_and = prev_and.and(&v.mask);
            proof {
                let nv = svs[idx as int];
                assert(verifier_views(kept@) =~= kv0.push(nv));
                let kv1 = verifier_views(kept@);
                assert forall|b: int| 0 <= b < n implies kept_and@[b] == bit_in_all(kv1, b) by {
                    lemma_bit_in_all_push(kv0, nv, b);
                }
                assert forall|b: int| 0 <= b < n implies w@[b] == (bit_in_all(kv1, b)
                    && bit_in_all(svs.skip(idx + 1), b)) by {
                    lemma_bit_in_all_push(kv0, nv, b);
                    lemma_bit_in_all_skip(svs, idx as int, b);
                }
                assert forall|j: int| 0 <= j < kept@.len() implies verifier_coherent(
                    #[trigger] verifier_views(kept@)[j],
                    *gc,
                ) && rule_valid(verifier_views(kept@)[j].rule, *gc) && contains_rule(
                    ruleset@,
                    verifier_views(kept@)[j].rule,
                ) && verifier_views(kept@)[j].mask.len() == n by {
                    if j == kept@.len() - 1 {
                        assert(kv1[j] == nv);
                    } else {
                        assert(kv1[j] == kv0[j]);
                    }
                }
                wit = wit.push(b0);
                assert forall|k: int|
                    0 <= k < kept@.len() implies 0 <= #[trigger] wit[k] < n && !verifier_views(
                    kept@,
                )[k].mask[wit[k]] && bit_in_all(verifier_views(kept@).remove(k), wit[k])
                    && bit_in_all(verifier_views(sorted@).skip(idx + 1), wit[k]) by {
                    if k == kept@.len() - 1 {
                        assert(kv1[k] == nv);
                        assert(!nv.mask[b0]);
                        assert(kv1.remove(k) =~= kv0);
                        assert(bit_in_all(kv0, b0) && bit_in_all(svs.skip(idx + 1), b0));
                    } else {
                        assert(kv1[k] == kv0[k]);
                        assert(kv1.remove(k) =~= kv0.remove(k).push(nv));
                        lemma_bit_in_all_skip(svs, idx as int, wit[k]);
                        assert(nv.mask[wit[k]]);
                        lemma_bit_in_all_push(kv0.remove(k), nv, wit[k]);
                    }
                }
            }
        } else {
            proof {
                assert forall|b: int| 0 <= b < n implies w@[b] == (bit_in_all(kv0, b)
                    && bit_in_all(svs.skip(idx + 1), b)) by {
                    lemma_bit_in_all_skip(svs, idx as int, b);
                    assert(merged@[b] == v.mask@[b]);
                    if bit_in_all(kv0, b) && bit_in_all(svs.skip(idx + 1), b) {
                        assert(other@[b]);
                        assert(v.mask@[b]);
                    }
                }
                assert forall|k: int|
                    0 <= k < kept@.len() implies 0 <= #[trigger] wit[k] < n && !verifier_views(
                    kept@,
                )[k].mask[wit[k]] && bit_in_all(verifier_views(kept@).remove(k), wit[k])
                    && bit_in_all(verifier_views(sorted@).skip(idx + 1), wit[k]) by {
                    lemma_bit_in_all_skip(svs, idx as int, wit[k]);
                }
            }
        }
        proof {
            assert(forall|b: int|
                0 <= b < n ==> w@[b] == (bit_in_all(verifier_views(kept@), b) && bit_in_all(
                    verifier_views(sorted@).skip(idx + 1),
                    b,
                )));
        }
        idx = idx + 1;
    }
    let vs = Verificators(kept);
    proof {
        let kviews = vs@;
        let nn = n as nat;
        assert(verifier_views(sorted@).skip(sorted@.len() as int) =~= Seq::<VerifierV>::empty());
        assert forall|b: int| 0 <= b < n implies w@[b] == bit_in_all(kviews, b) by {
            assert(bit_in_all(verifier_views(sorted@).skip(sorted@.len() as int), b));
        }
        assert(and_mask(kviews, nn) =~= w@);
        assert(popcount(and_mask(kviews, nn)) == 1);
        assert(and_mask(kviews, nn)[tz as int]);
        assert forall|k: int| 0 <= k < kviews.len() implies popcount(
            and_mask(#[trigger] kviews.remove(k), nn),
        ) > popcount(and_mask(kviews, nn)) by {
            let rm = kviews.remove(k);
            assert forall|b: int|
                0 <= b < n && and_mask(kviews, nn)[b] implies and_mask(rm, nn)[b] by {
                lemma_bit_in_all_remove(kviews, k, b);
            }
            assert(0 <= wit[k] < n);
            assert(bit_in_all(verifier_views(sorted@).skip(sorted@.len() as int), wit[k]));
            assert(bit_in_all(rm, wit[k]));
            assert(!kviews[k].mask[wit[k]]);
            assert(!bit_in_all(kviews, wit[k]));
            assert(!and_mask(kviews, nn)[wit[k]] && and_mask(rm, nn)[wit[k]]);
            lemma_popcount_subset(and_mask(kviews, nn), and_mask(rm, nn));
        }
        if ruleset@.len() == 0 {
            assert(accv.len() == 0) by {
                if accv.len() > 0 {
                    assert(contains_rule(ruleset@, accv[0].rule));
                }
            }
            assert(sorted@.len() == 0);
            assert(kviews.len() == 0);
            assert forall|b: int| 0 <= b < n implies w@[b] by {
                assert(bit_in_all(kviews, b));
            }
            crate::bitmask::lemma_popcount_ones(w@);
            assert(n == 1);
        }
    }
    Ok((code, vs))
}

/// One criteria per retained verifier: the verifier itself, and a
/// randomly chosen similar-rule group whose list holds the true rule among
/// same-family decoys.
pub fn generate_criterias(
    rng: &mut rand::rngs::StdRng,
    verificators: &Verificators,
    gc: &GameConfiguration,
) -> (r: Vec<Criteria>)
    requires
        gc.wf(),
        forall|j: int|
            0 <= j < verificators@.len() ==> rule_valid(
                (#[trigger] verificators@[j]).rule,
                *gc,
            ),
    ensures
        r@.len() == verificators@.len(),
        forall|j: int|
            0 <= j < r@.len() ==> ((#[trigger] r@[j]@).verif == verificators@[j]
                && criteria_has_true_rule(r@[j]@) && (forall|i: int|
                0 <= i < r@[j]@.rules.len() ==> rule_valid(#[trigger] r@[j]@.rules[i], *gc)
                    && same_family(r@[j]@.rules[i], verificators@[j].rule))),
        forall|j: int|
            0 <= j < r@.len() ==> (crate::term_format::ascii_seq((#[trigger] r@[j]@).description)
                && r@[j]@.description.len() < 0x1_0000_0000 && r@[j]@.rules.len()
                < 0x1_0000_0000),
        forall|j: int|
            0 <= j < r@.len() ==> similar_group_of(
                verificators@[j].rule,
                *gc,
                (#[trigger] r@[j]@).description,
                r@[j]@.rules,
            ),
{
    let mut criterias: Vec<Criteria> = Vec::new();
    let mut j: usize = 0;
    while j < verificators.len()
        invariant
            j <= verificators@.len(),
            gc.wf(),
            forall|k: int|
                0 <= k < verificators@.len() ==> rule_valid(
                    (#[trigger] verificators@[k]).rule,
                    *gc,
                ),
            criterias@.len() == j,
            forall|k: int|
                0 <= k < j ==> ((#[trigger] criterias@[k]@).verif == verificators@[k]
                    && criteria_has_true_rule(criterias@[k]@) && (forall|i: int|
                    0 <= i < criterias@[k]@.rules.len() ==> rule_valid(
                        #[trigger] criterias@[k]@.rules[i],
                        *gc,
                    ) && same_family(criterias@[k]@.rules[i], verificators@[k].rule))),
            forall|k: int|
                0 <= k < j ==> (crate::term_format::ascii_seq(
                    (#[trigger] criterias@[k]@).description,
                ) && criterias@[k]@.description.len() < 0x1_0000_0000 && criterias@[k]@.rules.len()
                    < 0x1_0000_0000),
            forall|k: int|
                0 <= k < j ==> similar_group_of(
                    verificators@[k].rule,
                    *gc,
                    (#[trigger] criterias@[k]@).description,
                    criterias@[k]@.rules,
                ),
        decreases verificators@.len() - j,
    {
        let verif = verificators.get(j);
        let mut sim = verif.rule.get_similar(gc);
        let ghost sim0 = sim@;
        let pick = crate::rng::rng_below(rng, sim.len());
        let group = sim.swap_remove(pick);
        proof {
            assert(group == sim0[pick as int]);
            assert(contains_rule(group.1@, verif.rule@));
        }
        let (description, rules) = group;
        criterias.push(Criteria { verif: verif.clone(), description, rules });
        proof {
            let c = criterias@[j as int]@;
            assert(c.verif == verificators@[j as int]);
            assert(c.rules == sim0[pick as int].1@);
            assert(c.description == sim0[pick as int].0@);
            assert(similar_group_of(verificators@[j as int].rule, *gc, c.description, c.rules));
            let w = choose|i: int| 0 <= i < c.rules.len() && c.rules[i] == verif.rule@;
            assert(c.rules[w] == c.verif.rule);
            assert(criteria_has_true_rule(c));
            assert forall|i: int| 0 <= i < c.rules.len() implies rule_valid(
                #[trigger] c.rules[i],
                *gc,
            ) && same_family(c.rules[i], verificators@[j as int].rule) by {
                assert(sim0[pick as int].1@[i] == c.rules[i]);
            }
        }
        j = j + 1;
    }
    criterias
}

/// The puzzle generator: builds the configuration, enumerates and filters
/// the rule universe, reduces the solution space to a single secret code,
/// prunes redundant verifiers, and wraps each survivor in a criteria with
/// decoy phrasings. On success the intersection of the criterias' masks
/// keeps exactly one candidate, the game's code; no criteria is redundant;
/// every criteria carries one of its rule's similar-rule groups, so its
/// decoy list holds the true rule; and every retained rule is a universe
/// rule that survives the difficulty filter. A degenerate one-candidate
/// space (base one) yields a game with no criterias rather than an error.
pub fn generate_game(
    rng: &mut rand::rngs::StdRng,
    base: u8,
    column_count: u8,
    difficulty_pct: u8,
) -> (r: Result<Game, EnigmindError>)
    requires
        base >= 1,
        column_count <= 31,
        pow(base as int, column_count as nat) <= u32::MAX,
        column_count as int * base as int <= 255,
    ensures
        (match r {
            Ok(game) => {
                let gc = game.configuration;
                let n = gc.solution_count_spec() as nat;
                let vs = criteria_verifiers(game.criterias@);
                &&& gc.base == base
                &&& gc.column_count == column_count
                &&& gc.min_difficulty == (if difficulty_pct > 100 {
                    100u8
                } else {
                    difficulty_pct
                })
                &&& code_wf(game.code@, gc)
                &&& forall|j: int|
                    0 <= j < game.criterias@.len() ==> criteria_has_true_rule(
                        #[trigger] game.criterias@[j],
                    )
                &&& forall|j: int|
                    0 <= j < game.criterias@.len() ==> similar_group_of(
                        vs[j].rule,
                        gc,
                        (#[trigger] game.criterias@[j]).description,
                        game.criterias@[j].rules,
                    )
                &&& forall|j: int|
                    0 <= j < vs.len() ==> verifier_coherent(#[trigger] vs[j], gc) && rule_valid(
                        vs[j].rule,
                        gc,
                    ) && in_universe(vs[j].rule, gc) && passes_difficulty(vs[j].rule, gc)
                &&& popcount(and_mask(vs, n)) == 1
                &&& 0 <= shift_of(game.code@, base as int) < n
                &&& and_mask(vs, n)[shift_of(game.code@, base as int)]
                &&& forall|k: int|
                    0 <= k < vs.len() ==> popcount(and_mask(#[trigger] vs.remove(k), n))
                        > popcount(and_mask(vs, n))
                &&& game_encodable(game@)
            },
            Err(e) => e == EnigmindError::GenerationFailed && pow(
                base as int,
                column_count as nat,
            ) > 1,
        }),
        pow(base as int, column_count as nat) == 1 ==> r is Ok,
{
    let gc = generate_game_configuration(base, column_count, difficulty_pct);
    let rules = match generate_rules(&gc) {
        Ok(r) => r,
        Err(e) => {
            proof {
                assert(false);
            }
            return Err(EnigmindError::GenerationFailed);
        },
    };
    let picked = match generate_verificators(rng, &rules, &gc) {
        Ok(p) => p,
        Err(e) => {
            return Err(e);
        },
    };
    let (code, verificators) = picked;
    let criterias = generate_criterias(rng, &verificators, &gc);
    let game = Game { configuration: gc, criterias: Criterias(criterias), code };
    proof {
        let vs = criteria_verifiers(game.criterias@);
        assert(vs =~= verificators@);
        assert forall|j: int| 0 <= j < vs.len() implies verifier_coherent(#[trigger] vs[j], gc)
            && rule_valid(vs[j].rule, gc) && in_universe(vs[j].rule, gc) && passes_difficulty(
            vs[j].rule,
            gc,
        ) by {
            assert(vs[j] == verificators@[j]);
            assert(contains_rule(rules@, verificators@[j].rule));
            let k = choose|k: int| 0 <= k < rules@.len() && rules@[k] == verificators@[j].rule;
            assert(rule_valid(rules@[k], gc) && in_universe(rules@[k], gc) && passes_difficulty(
                rules@[k],
                gc,
            ));
        }
        assert forall|j: int| 0 <= j < game.criterias@.len() implies criteria_has_true_rule(
            #[trigger] game.criterias@[j],
        ) by {
            assert(game.criterias@[j] == criterias@[j]@);
        }
        assert forall|j: int| 0 <= j < game.criterias@.len() implies similar_group_of(
            vs[j].rule,
            gc,
            (#[trigger] game.criterias@[j]).description,
            game.criterias@[j].rules,
        ) by {
            assert(game.criterias@[j] == criterias@[j]@);
            assert(vs[j] == verificators@[j]);
        }
        assert forall|k: int| 0 <= k < vs.len() implies popcount(
            and_mask(#[trigger] vs.remove(k), gc.solution_count_spec() as nat),
        ) > popcount(and_mask(vs, gc.solution_count_spec() as nat)) by {
            assert(vs.remove(k) =~= verificators@.remove(k));
        }
        assert forall|j: int|
            0 <= j < game.criterias@.len() implies criteria_encodable(
            #[trigger] game.criterias@[j],
        ) by {
            let c = game.criterias@[j];
            assert(c == criterias@[j]@);
            assert(rule_encodable(c.verif.rule)) by {
                assert(c.verif == verificators@[j]);
                assert(rule_valid(c.verif.rule, gc));
                match c.verif.rule {
                    RuleV::MatchesOp(op, cs) => {
                        lemma_sorted_len_le_bound(cs, gc.column_count as int);
                    },
                    RuleV::XColumnsEquals(count, value) => {},
                }
            }
            assert(c.verif.mask.len() < 0x1_0000_0000) by {
                assert(verifier_coherent(vs[j], gc));
                assert(c.verif.mask == rule_mask_spec(c.verif.rule, gc));
                lemma_pow_positive(gc.base as int, gc.column_count as nat);
                assert(c.verif.mask.len() == gc.solution_count_spec());
                assert(gc.solution_count_spec() == pow(base as int, column_count as nat));
            }
            assert forall|i: int|
                0 <= i < c.rules.len() implies rule_encodable(#[trigger] c.rules[i]) by {
                assert(rule_valid(c.rules[i], gc));
                match c.rules[i] {
                    RuleV::MatchesOp(op, cs) => {
                        lemma_sorted_len_le_bound(cs, gc.column_count as int);
                    },
                    RuleV::XColumnsEquals(count, value) => {},
                }
            }
        }
        assert(game.code@.len() <= 255);
        assert(game.criterias@.len() < 0x1_0000_0000);
        assert(game_encodable(game@));
    }
    Ok(game)
}
} // verus!
