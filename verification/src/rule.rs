//! The rule model: a closed set of predicate variants over a code, its
//! evaluation function, and the materialization of a rule's bitmask over the
//! whole solution space.

use vstd::prelude::*;

use vstd::arithmetic::power::lemma_pow_positive;

use crate::bitmask::BitMask;
use crate::code::{decode_spec, Code};
use crate::columns::{cols_in_bounds, lemma_sorted_len_le_bound, sorted_distinct, ColumnSet};
use crate::error::EnigmindError;
use crate::rules::{contains_rule, Rules};
use crate::setup::{contains_subset, valid_subset, GameConfiguration};
use crate::term_format::{
    append_ascii, ascii_seq, cols_display_chars, dec_chars, lemma_ascii_push, op_word,
    push_u8_decimal, string_push,
};

verus! {

/// The predicate kind a rule applies to its referenced columns.
#[derive(Debug, Clone, Copy, PartialEq, Eq, Structural)]
pub enum Operator {
    /// Every referenced digit is even.
    Pair,
    /// Every referenced digit is odd.
    Impair,
    /// Every referenced digit is the code-wide minimum, and that minimum
    /// occurs exactly once in the whole code.
    Lowest,
    /// Every referenced digit is the code-wide maximum, and that maximum
    /// occurs exactly once in the whole code.
    Highest,
    /// The sum of the referenced digits is below the operand.
    SumBelow(u8),
    /// The sum of the referenced digits equals the operand.
    SumEquals(u8),
    /// The sum of the referenced digits is above the operand.
    SumAbove(u8),
}

/// A boolean predicate over a code.
#[derive(Debug)]
pub enum Rule {
    /// An operator applied to a set of referenced columns.
    MatchesOp(Operator, ColumnSet),
    /// Exactly `count` digits across the whole code equal `value`; the
    /// referenced-column mechanism plays no part.
    XColumnsEquals(u8, u8),
}

/// The abstract value of a rule: the column set as its sorted index
/// sequence.
pub enum RuleV {
    MatchesOp(Operator, Seq<u8>),
    XColumnsEquals(u8, u8),
}

impl View for Rule {
    type V = RuleV;

    open spec fn view(&self) -> RuleV {
        match *self {
            Rule::MatchesOp(op, cs) => RuleV::MatchesOp(op, cs@),
            Rule::XColumnsEquals(count, value) => RuleV::XColumnsEquals(count, value),
        }
    }
}

/// Number of digits of `code` equal to `value`.
pub open spec fn count_eq(code: Seq<u8>, value: u8) -> int
    decreases code.len(),
{
    if code.len() == 0 {
        0
    } else {
        count_eq(code.drop_last(), value) + if code.last() == value {
            1int
        } else {
            0int
        }
    }
}

/// The largest digit of `code` (zero for an empty code).
pub open spec fn seq_max(code: Seq<u8>) -> u8
    decreases code.len(),
{
    if code.len() == 0 {
        0
    } else if code.last() > seq_max(code.drop_last()) {
        code.last()
    } else {
        seq_max(code.drop_last())
    }
}

/// The smallest digit of `code` (255 for an empty code).
pub open spec fn seq_min(code: Seq<u8>) -> u8
    decreases code.len(),
{
    if code.len() == 0 {
        255
    } else if code.last() < seq_min(code.drop_last()) {
        code.last()
    } else {
        seq_min(code.drop_last())
    }
}

/// Sum of the digits of `code` at the positions in `cs`.
pub open spec fn sum_cols(cs: Seq<u8>, code: Seq<u8>) -> int
    decreases cs.len(),
{
    if cs.len() == 0 {
        0
    } else {
        sum_cols(cs.drop_last(), code) + code[cs.last() as int]
    }
}

/// Every column the rule references exists in a code of length `len`.
pub open spec fn rule_in_bounds(r: RuleV, len: int) -> bool {
    match r {
        RuleV::MatchesOp(op, cs) => cols_in_bounds(cs, len),
        RuleV::XColumnsEquals(count, value) => true,
    }
}

/// Every digit of `code` at a position in `cs` is even.
pub open spec fn all_even_spec(cs: Seq<u8>, code: Seq<u8>) -> bool {
    forall|i: int| 0 <= i < cs.len() ==> code[cs[i] as int] % 2 == 0
}

/// Every digit of `code` at a position in `cs` is odd.
pub open spec fn all_odd_spec(cs: Seq<u8>, code: Seq<u8>) -> bool {
    forall|i: int| 0 <= i < cs.len() ==> code[cs[i] as int] % 2 == 1
}

/// Every digit of `code` at a position in `cs` is the code-wide maximum,
/// and that maximum occurs exactly once.
pub open spec fn all_highest_spec(cs: Seq<u8>, code: Seq<u8>) -> bool {
    forall|i: int|
        #![trigger cs[i]]
        0 <= i < cs.len() ==> (code[cs[i] as int] == seq_max(code) && count_eq(
            code,
            seq_max(code),
        ) == 1)
}

/// Every digit of `code` at a position in `cs` is the code-wide minimum,
/// and that minimum occurs exactly once.
pub open spec fn all_lowest_spec(cs: Seq<u8>, code: Seq<u8>) -> bool {
    forall|i: int|
        #![trigger cs[i]]
        0 <= i < cs.len() ==> (code[cs[i] as int] == seq_min(code) && count_eq(
            code,
            seq_min(code),
        ) == 1)
}

/// The unique-maximum check over one more column.
proof fn lemma_all_highest_push(cs: Seq<u8>, c: u8, code: Seq<u8>)
    ensures
        all_highest_spec(cs.push(c), code) == (all_highest_spec(cs, code) && (code[c as int]
            == seq_max(code) && count_eq(code, seq_max(code)) == 1)),
{
    let p = cs.push(c);
    assert(p[cs.len() as int] == c);
    assert(forall|j: int| 0 <= j < cs.len() ==> p[j] == cs[j]);
    if all_highest_spec(cs, code) && (code[c as int] == seq_max(code) && count_eq(
        code,
        seq_max(code),
    ) == 1) {
        assert forall|i: int|
            #![trigger p[i]]
            0 <= i < p.len() implies (code[p[i] as int] == seq_max(code) && count_eq(
            code,
            seq_max(code),
        ) == 1) by {
            if i < cs.len() {
                assert(p[i] == cs[i]);
            }
        }
    }
    if all_highest_spec(p, code) {
        assert forall|i: int|
            #![trigger cs[i]]
            0 <= i < cs.len() implies (code[cs[i] as int] == seq_max(code) && count_eq(
            code,
            seq_max(code),
        ) == 1) by {
            assert(p[i] == cs[i]);
        }
    }
}

/// The unique-minimum check over one more column.
proof fn lemma_all_lowest_push(cs: Seq<u8>, c: u8, code: Seq<u8>)
    ensures
        all_lowest_spec(cs.push(c), code) == (all_lowest_spec(cs, code) && (code[c as int]
            == seq_min(code) && count_eq(code, seq_min(code)) == 1)),
{
    let p = cs.push(c);
    assert(p[cs.len() as int] == c);
    assert(forall|j: int| 0 <= j < cs.len() ==> p[j] == cs[j]);
    if all_lowest_spec(cs, code) && (code[c as int] == seq_min(code) && count_eq(
        code,
        seq_min(code),
    ) == 1) {
        assert forall|i: int|
            #![trigger p[i]]
            0 <= i < p.len() implies (code[p[i] as int] == seq_min(code) && count_eq(
            code,
            seq_min(code),
        ) == 1) by {
            if i < cs.len() {
                assert(p[i] == cs[i]);
            }
        }
    }
    if all_lowest_spec(p, code) {
        assert forall|i: int|
            #![trigger cs[i]]
            0 <= i < cs.len() implies (code[cs[i] as int] == seq_min(code) && count_eq(
            code,
            seq_min(code),
        ) == 1) by {
            assert(p[i] == cs[i]);
        }
    }
}

/// What a rule says of a code; meaningful when the rule is in bounds for
/// the code's length.
pub open spec fn eval_spec(r: RuleV, code: Seq<u8>) -> bool {
    match r {
        RuleV::XColumnsEquals(count, value) => count_eq(code, value) == count as int,
        RuleV::MatchesOp(op, cs) => match op {
            Operator::Pair => all_even_spec(cs, code),
            Operator::Impair => all_odd_spec(cs, code),
            Operator::Highest => all_highest_spec(cs, code),
            Operator::Lowest => all_lowest_spec(cs, code),
            Operator::SumBelow(value) => sum_cols(cs, code) < value as int,
            Operator::SumEquals(value) => sum_cols(cs, code) == value as int,
            Operator::SumAbove(value) => sum_cols(cs, code) > value as int,
        },
    }
}

/// The bitmask of a rule over the whole solution space: bit `i` is the
/// rule's verdict on the code that shift `i` decodes to.
pub open spec fn rule_mask_spec(r: RuleV, gc: GameConfiguration) -> Seq<bool> {
    Seq::new(
        gc.solution_count_spec() as nat,
        |i: int| eval_spec(r, decode_spec(i, gc.base as int, gc.column_count as nat)),
    )
}

/// A rule whose shape fits a configuration: a sorted, deduplicated,
/// nonempty set of existing columns, or a count of at most the number of
/// columns.
pub open spec fn rule_valid(r: RuleV, gc: GameConfiguration) -> bool {
    match r {
        RuleV::MatchesOp(op, cs) => {
            &&& sorted_distinct(cs)
            &&& cs.len() >= 1
            &&& cols_in_bounds(cs, gc.column_count as int)
        },
        RuleV::XColumnsEquals(count, value) => count <= gc.column_count,
    }
}

impl Clone for Rule {
    /// A cloned rule has the same abstract value.
    fn clone(&self) -> (r: Self)
        ensures
            r@ == self@,
    {
        match self {
            Rule::MatchesOp(op, cs) => Rule::MatchesOp(*op, cs.clone()),
            Rule::XColumnsEquals(count, value) => Rule::XColumnsEquals(*count, *value),
        }
    }
}

impl PartialEq for Rule {
    /// Two rules are equal when they have the same abstract value.
    fn eq(&self, other: &Self) -> (r: bool) {
        match (self, other) {
            (Rule::MatchesOp(o1, c1), Rule::MatchesOp(o2, c2)) => *o1 == *o2 && *c1 == *c2,
            (Rule::XColumnsEquals(n1, v1), Rule::XColumnsEquals(n2, v2)) => *n1 == *n2 && *v1
                == *v2,
            _ => false,
        }
    }
}

impl Eq for Rule {}

impl vstd::std_specs::cmp::PartialEqSpecImpl for Rule {
    open spec fn obeys_eq_spec() -> bool {
        true
    }

    open spec fn eq_spec(&self, other: &Rule) -> bool {
        self@ == other@
    }
}

/// Law: evaluation is pure. Any two calls of `Rule::evaluate` on the same
/// rule and equal codes return the same result.
pub proof fn lemma_evaluate_pure(
    rule: &Rule,
    code1: Code,
    code2: Code,
    r1: Result<bool, EnigmindError>,
    r2: Result<bool, EnigmindError>,
)
    requires
        code1@ == code2@,
        call_ensures(Rule::evaluate, (rule, code1), r1),
        call_ensures(Rule::evaluate, (rule, code2), r2),
    ensures
        r1 == r2,
{
}

impl Rule {
    /// The rule's verdict on a code; pure, and failing exactly when the
    /// rule references a column the code does not have.
    pub fn evaluate(&self, code: Code) -> (r: Result<bool, EnigmindError>)
        ensures
            rule_in_bounds(self@, code@.len() as int) ==> r == Ok::<bool, EnigmindError>(
                eval_spec(self@, code@),
            ),
            !rule_in_bounds(self@, code@.len() as int) ==> r == Err::<bool, EnigmindError>(
                EnigmindError::ColumnIndexOutOfBounds,
            ),
    {
        match self {
            Rule::XColumnsEquals(count, value) => {
                let mut cnt: usize = 0;
                let mut i: usize = 0;
                while i < code.0.len()
                    invariant
                        i <= code.0.len(),
                        cnt == count_eq(code@.take(i as int), *value),
                        cnt <= i,
                    decreases code.0.len() - i,
                {
                    proof {
                        let nxt = code@.take(i + 1int);
                        assert(nxt.drop_last() =~= code@.take(i as int));
                        assert(nxt.last() == code@[i as int]);
                    }
                    if code.0[i] == *value {
                        cnt = cnt + 1;
                    }
                    i = i + 1;
                }
                proof {
                    assert(code@.take(code@.len() as int) =~= code@);
                }
                Ok(cnt == *count as usize)
            },
            Rule::MatchesOp(op, columns) => {
                if !Self::check_bounds(columns, code.0.len()) {
                    return Err(EnigmindError::ColumnIndexOutOfBounds);
                }
                match op {
                    Operator::Pair => {
                        let v = Self::all_even(columns, &code);
                        proof {
                            assert(self@ == RuleV::MatchesOp(Operator::Pair, columns@));
                            assert(eval_spec(self@, code@) == all_even_spec(columns@, code@));
                        }
                        Ok(v)
                    },
                    Operator::Impair => {
                        let v = Self::all_odd(columns, &code);
                        proof {
                            assert(self@ == RuleV::MatchesOp(Operator::Impair, columns@));
                            assert(eval_spec(self@, code@) == all_odd_spec(columns@, code@));
                        }
                        Ok(v)
                    },
                    Operator::Highest => {
                        let v = Self::all_highest(columns, &code);
                        proof {
                            assert(self@ == RuleV::MatchesOp(Operator::Highest, columns@));
                            assert(eval_spec(self@, code@) == all_highest_spec(columns@, code@));
                        }
                        Ok(v)
                    },
                    Operator::Lowest => {
                        let v = Self::all_lowest(columns, &code);
                        proof {
                            assert(self@ == RuleV::MatchesOp(Operator::Lowest, columns@));
                            assert(eval_spec(self@, code@) == all_lowest_spec(columns@, code@));
                        }
                        Ok(v)
                    },
                    Operator::SumBelow(value) => {
                        let v = Self::sum_digits(columns, &code) < *value as u128;
                        assert(v == eval_spec(self@, code@));
                        Ok(v)
                    },
                    Operator::SumEquals(value) => {
                        let v = Self::sum_digits(columns, &code) == *value as u128;
                        assert(v == eval_spec(self@, code@));
                        Ok(v)
                    },
                    Operator::SumAbove(value) => {
                        let v = Self::sum_digits(columns, &code) > *value as u128;
                        assert(v == eval_spec(self@, code@));
                        Ok(v)
                    },
                }
            },
        }
    }

    /// Whether every index in the set is below `len`.
    fn check_bounds(columns: &ColumnSet, len: usize) -> (r: bool)
        ensures
            r == cols_in_bounds(columns@, len as int),
    {
        let mut i: usize = 0;
        while i < columns.len()
            invariant
                i <= columns@.len(),
                forall|j: int| 0 <= j < i ==> columns@[j] < len,
            decreases columns@.len() - i,
        {
            if columns.get(i).index() as usize >= len {
                assert((i as int) < columns@.len() && columns@[i as int] >= len);
                return false;
            }
            i = i + 1;
        }
        true
    }

    /// Whether every referenced digit is even.
    fn all_even(columns: &ColumnSet, code: &Code) -> (r: bool)
        requires
            forall|j: int| 0 <= j < columns@.len() ==> columns@[j] < code@.len(),
        ensures
            r == all_even_spec(columns@, code@),
    {
        let mut res = true;
        let mut i: usize = 0;
        while i < columns.len()
            invariant
                i <= columns@.len(),
                forall|j: int| 0 <= j < columns@.len() ==> columns@[j] < code@.len(),
                res == (forall|j: int| 0 <= j < i ==> code@[columns@[j] as int] % 2 == 0),
            decreases columns@.len() - i,
        {
            let c = columns.get(i);
            let d = code.0[c.index() as usize];
            res = res && (d % 2 == 0);
            i = i + 1;
        }
        res
    }

    /// Whether every referenced digit is odd.
    fn all_odd(columns: &ColumnSet, code: &Code) -> (r: bool)
        requires
            forall|j: int| 0 <= j < columns@.len() ==> columns@[j] < code@.len(),
        ensures
            r == all_odd_spec(columns@, code@),
    {
        let mut res = true;
        let mut i: usize = 0;
        while i < columns.len()
            invariant
                i <= columns@.len(),
                forall|j: int| 0 <= j < columns@.len() ==> columns@[j] < code@.len(),
                res == (forall|j: int| 0 <= j < i ==> code@[columns@[j] as int] % 2 == 1),
            decreases columns@.len() - i,
        {
            let c = columns.get(i);
            let d = code.0[c.index() as usize];
            res = res && (d % 2 == 1);
            i = i + 1;
        }
        res
    }

    /// Whether every referenced digit is the unique code-wide maximum.
    fn all_highest(columns: &ColumnSet, code: &Code) -> (r: bool)
        requires
            forall|j: int| 0 <= j < columns@.len() ==> columns@[j] < code@.len(),
        ensures
            r == all_highest_spec(columns@, code@),
    {
        let m = Self::max_digit(code);
        let cnt = Self::count_value(code, m);
        let unique = cnt == 1;
        let mut res = true;
        let mut i: usize = 0;
        proof {
            assert(columns@.take(0) =~= Seq::<u8>::empty());
        }
        while i < columns.len()
            invariant
                i <= columns@.len(),
                forall|j: int| 0 <= j < columns@.len() ==> columns@[j] < code@.len(),
                m == seq_max(code@),
                unique == (count_eq(code@, seq_max(code@)) == 1),
                res == all_highest_spec(columns@.take(i as int), code@),
            decreases columns@.len() - i,
        {
            let c = columns.get(i);
            let d = code.0[c.index() as usize];
            proof {
                assert(columns@.take(i + 1) =~= columns@.take(i as int).push(columns@[i as int]));
                lemma_all_highest_push(columns@.take(i as int), columns@[i as int], code@);
            }
            res = res && d == m && unique;
            i = i + 1;
        }
        proof {
            assert(columns@.take(columns@.len() as int) =~= columns@);
        }
        res
    }

    /// Whether every referenced digit is the unique code-wide minimum.
    fn all_lowest(columns: &ColumnSet, code: &Code) -> (r: bool)
        requires
            forall|j: int| 0 <= j < columns@.len() ==> columns@[j] < code@.len(),
        ensures
            r == all_lowest_spec(columns@, code@),
    {
        let m = Self::min_digit(code);
        let cnt = Self::count_value(code, m);
        let unique = cnt == 1;
        let mut res = true;
        let mut i: usize = 0;
        proof {
            assert(columns@.take(0) =~= Seq::<u8>::empty());
        }
        while i < columns.len()
            invariant
                i <= columns@.len(),
                forall|j: int| 0 <= j < columns@.len() ==> columns@[j] < code@.len(),
                m == seq_min(code@),
                unique == (count_eq(code@, seq_min(code@)) == 1),
                res == all_lowest_spec(columns@.take(i as int), code@),
            decreases columns@.len() - i,
        {
            let c = columns.get(i);
            let d = code.0[c.index() as usize];
            proof {
                assert(columns@.take(i + 1) =~= columns@.take(i as int).push(columns@[i as int]));
                lemma_all_lowest_push(columns@.take(i as int), columns@[i as int], code@);
            }
            res = res && d == m && unique;
            i = i + 1;
        }
        proof {
            assert(columns@.take(columns@.len() as int) =~= columns@);
        }
        res
    }

    /// The largest digit of the code.
    fn max_digit(code: &Code) -> (r: u8)
        ensures
            r == seq_max(code@),
    {
        let mut m: u8 = 0;
        let mut i: usize = 0;
        while i < code.0.len()
            invariant
                i <= code@.len(),
                m == seq_max(code@.take(i as int)),
            decreases code@.len() - i,
        {
            proof {
                let nxt = code@.take(i + 1int);
                assert(nxt.drop_last() =~= code@.take(i as int));
                assert(nxt.last() == code@[i as int]);
            }
            if code.0[i] > m {
                m = code.0[i];
            }
            i = i + 1;
        }
        proof {
            assert(code@.take(code@.len() as int) =~= code@);
        }
        m
    }

    /// The smallest digit of the code.
    fn min_digit(code: &Code) -> (r: u8)
        ensures
            r == seq_min(code@),
    {
        let mut m: u8 = 255;
        let mut i: usize = 0;
        while i < code.0.len()
            invariant
                i <= code@.len(),
                m == seq_min(code@.take(i as int)),
            decreases code@.len() - i,
        {
            proof {
                let nxt = code@.take(i + 1int);
                assert(nxt.drop_last() =~= code@.take(i as int));
                assert(nxt.last() == code@[i as int]);
            }
            if code.0[i] < m {
                m = code.0[i];
            }
            i = i + 1;
        }
        proof {
            assert(code@.take(code@.len() as int) =~= code@);
        }
        m
    }

    /// How many digits of the code equal `value`.
    fn count_value(code: &Code, value: u8) -> (r: usize)
        ensures
            r == count_eq(code@, value),
    {
        let mut cnt: usize = 0;
        let mut i: usize = 0;
        while i < code.0.len()
            invariant
                i <= code@.len(),
                cnt == count_eq(code@.take(i as int), value),
                cnt <= i,
            decreases code@.len() - i,
        {
            proof {
                let nxt = code@.take(i + 1int);
                assert(nxt.drop_last() =~= code@.take(i as int));
                assert(nxt.last() == code@[i as int]);
            }
            if code.0[i] == value {
                cnt = cnt + 1;
            }
            i = i + 1;
        }
        proof {
            assert(code@.take(code@.len() as int) =~= code@);
        }
        cnt
    }

    /// Sum of the referenced digits.
    fn sum_digits(columns: &ColumnSet, code: &Code) -> (r: u128)
        requires
            forall|j: int| 0 <= j < columns@.len() ==> columns@[j] < code@.len(),
        ensures
            r == sum_cols(columns@, code@),
    {
        let mut sum: u128 = 0;
        let mut i: usize = 0;
        while i < columns.len()
            invariant
                i <= columns@.len(),
                forall|j: int| 0 <= j < columns@.len() ==> columns@[j] < code@.len(),
                sum == sum_cols(columns@.take(i as int), code@),
                sum <= 255 * i,
            decreases columns@.len() - i,
        {
            proof {
                let nxt = columns@.take(i + 1int);
                assert(nxt.drop_last() =~= columns@.take(i as int));
                assert(nxt.last() == columns@[i as int]);
            }
            let c = columns.get(i);
            sum = sum + (code.0[c.index() as usize] as u128);
            i = i + 1;
        }
        proof {
            assert(columns@.take(columns@.len() as int) =~= columns@);
        }
        sum
    }

    /// The bitmask of this rule over the full solution space: for every
    /// shift, the rule's verdict on the decoded code.
    pub fn get_mask(&self, config: &GameConfiguration) -> (r: Result<BitMask, EnigmindError>)
        requires
            config.wf(),
        ensures
            rule_in_bounds(self@, config.column_count as int) ==> (r matches Ok(m) && m@
                == rule_mask_spec(self@, *config)),
            !rule_in_bounds(self@, config.column_count as int) ==> r == Err::<
                BitMask,
                EnigmindError,
            >(EnigmindError::ColumnIndexOutOfBounds),
    {
        let n = config.solution_count() as usize;
        proof {
            lemma_pow_positive(config.base as int, config.column_count as nat);
        }
        let mut mask = BitMask::zeros(n);
        let mut i: usize = 0;
        while i < n
            invariant
                i <= n,
                config.wf(),
                n == config.solution_count_spec(),
                n >= 1,
                mask@.len() == n,
                i > 0 ==> rule_in_bounds(self@, config.column_count as int),
                forall|j: int|
                    0 <= j < i ==> mask@[j] == eval_spec(
                        self@,
                        decode_spec(j, config.base as int, config.column_count as nat),
                    ),
            decreases n - i,
        {
            let code = Code::from_shift(i as u32, config);
            let verdict = match self.evaluate(code) {
                Ok(v) => v,
                Err(e) => {
                    return Err(e);
                },
            };
            match mask.set(i, verdict) {
                Ok(()) => {},
                Err(e) => {
                    return Err(EnigmindError::BitmaskError(e));
                },
            }
            i = i + 1;
        }
        proof {
            assert(mask@ =~= rule_mask_spec(self@, *config));
        }
        Ok(mask)
    }
}


/// Two operators belong to the same clue family: the parities together,
/// each extreme on its own, and the three sum comparisons with one operand
/// together.
pub open spec fn op_same_family(a: Operator, b: Operator) -> bool {
    match a {
        Operator::Pair => b == Operator::Pair || b == Operator::Impair,
        Operator::Impair => b == Operator::Pair || b == Operator::Impair,
        Operator::Lowest => b == Operator::Lowest,
        Operator::Highest => b == Operator::Highest,
        Operator::SumBelow(x) => b == Operator::SumBelow(x) || b == Operator::SumEquals(x) || b
            == Operator::SumAbove(x),
        Operator::SumEquals(x) => b == Operator::SumBelow(x) || b == Operator::SumEquals(x) || b
            == Operator::SumAbove(x),
        Operator::SumAbove(x) => b == Operator::SumBelow(x) || b == Operator::SumEquals(x) || b
            == Operator::SumAbove(x),
    }
}

/// Two rules are plausible alternates of each other: operators of one
/// family over equally many columns, or counts of the same digit value.
pub open spec fn same_family(a: RuleV, b: RuleV) -> bool {
    match (a, b) {
        (RuleV::MatchesOp(op1, cs1), RuleV::MatchesOp(op2, cs2)) => cs1.len() == cs2.len()
            && op_same_family(op1, op2),
        (RuleV::XColumnsEquals(c1, v1), RuleV::XColumnsEquals(c2, v2)) => v1 == v2,
        _ => false,
    }
}

/// The rule applies `op` to some column set of `size` members.
pub open spec fn is_op_rule(rv: RuleV, op: Operator, size: int) -> bool {
    match rv {
        RuleV::MatchesOp(o, cs) => o == op && cs.len() == size,
        RuleV::XColumnsEquals(count, value) => false,
    }
}

/// Every group offered for a rule holds the rule itself among valid
/// same-family alternates; its description is ASCII text, and the
/// description and the list fit 32-bit lengths.
pub open spec fn similar_groups_wf(
    rv: RuleV,
    groups: Seq<(String, Rules)>,
    gc: GameConfiguration,
) -> bool {
    &&& groups.len() >= 1
    &&& forall|g: int| 0 <= g < groups.len() ==> contains_rule((#[trigger] groups[g]).1@, rv)
    &&& forall|g: int, i: int|
        #![trigger groups[g].1@[i]]
        0 <= g < groups.len() && 0 <= i < groups[g].1@.len() ==> rule_valid(groups[g].1@[i], gc)
            && same_family(groups[g].1@[i], rv)
    &&& forall|g: int|
        0 <= g < groups.len() ==> (ascii_seq((#[trigger] groups[g]).0@) && groups[g].0@.len()
            < 0x1_0000_0000 && groups[g].1@.len() < 0x1_0000_0000)
}

/// The alternatives group offered for a combination rule: one rule of `op`
/// for every distinct column subset of `size` members, each exactly once.
pub open spec fn combination_group(
    rules: Seq<RuleV>,
    op: Operator,
    size: int,
    gc: GameConfiguration,
) -> bool {
    &&& (forall|i: int|
        0 <= i < rules.len() ==> rule_valid(#[trigger] rules[i], gc) && is_op_rule(
            rules[i],
            op,
            size,
        ))
    &&& (forall|s: Seq<u8>|
        valid_subset(s, gc.column_count) && s.len() == size ==> #[trigger] contains_rule(
            rules,
            RuleV::MatchesOp(op, s),
        ))
    &&& (forall|i1: int, i2: int| 0 <= i1 < i2 < rules.len() ==> rules[i1] != rules[i2])
}

/// The pair `(desc, rules)` is one of the similar-rule groups offered for
/// `rv`: the description is the group's fixed text and the list is the
/// group's phrasings.
pub open spec fn similar_group_of(
    rv: RuleV,
    gc: GameConfiguration,
    desc: Seq<char>,
    rules: Seq<RuleV>,
) -> bool {
    match rv {
        RuleV::MatchesOp(op, cs) => match op {
            Operator::Pair => (desc == "Column is pair or impair"@ && rules.len() == 2
                && rules[0] == RuleV::MatchesOp(Operator::Pair, cs) && rules[1]
                == RuleV::MatchesOp(Operator::Impair, cs)) || (desc
                == "One of the column is pair"@ && combination_group(
                rules,
                op,
                cs.len() as int,
                gc,
            )),
            Operator::Impair => (desc == "Column is pair or impair"@ && rules.len() == 2
                && rules[0] == RuleV::MatchesOp(Operator::Pair, cs) && rules[1]
                == RuleV::MatchesOp(Operator::Impair, cs)) || (desc
                == "One of the column is pair"@ && combination_group(
                rules,
                op,
                cs.len() as int,
                gc,
            )),
            Operator::Lowest => desc == "One of the column is the lowest"@ && combination_group(
                rules,
                op,
                cs.len() as int,
                gc,
            ),
            Operator::Highest => desc == "One of the column is the highest"@
                && combination_group(rules, op, cs.len() as int, gc),
            Operator::SumBelow(x) => (desc == "Column(s) "@ + cols_display_chars(cs)
                + " sum is below, equal or above "@ + dec_chars(x as int) && rules.len() == 3
                && rules[0] == RuleV::MatchesOp(Operator::SumBelow(x), cs) && rules[1]
                == RuleV::MatchesOp(Operator::SumEquals(x), cs) && rules[2] == RuleV::MatchesOp(
                Operator::SumAbove(x),
                cs,
            )) || (desc == "Sum of "@ + dec_chars(cs.len() as int) + " columns is "@ + op_word(op)
                + seq![' '] + dec_chars(x as int) && combination_group(
                rules,
                op,
                cs.len() as int,
                gc,
            )),
            Operator::SumEquals(x) => (desc == "Column(s) "@ + cols_display_chars(cs)
                + " sum is below, equal or above "@ + dec_chars(x as int) && rules.len() == 3
                && rules[0] == RuleV::MatchesOp(Operator::SumBelow(x), cs) && rules[1]
                == RuleV::MatchesOp(Operator::SumEquals(x), cs) && rules[2] == RuleV::MatchesOp(
                Operator::SumAbove(x),
                cs,
            )) || (desc == "Sum of "@ + dec_chars(cs.len() as int) + " columns is "@ + op_word(op)
                + seq![' '] + dec_chars(x as int) && combination_group(
                rules,
                op,
                cs.len() as int,
                gc,
            )),
            Operator::SumAbove(x) => (desc == "Column(s) "@ + cols_display_chars(cs)
                + " sum is below, equal or above "@ + dec_chars(x as int) && rules.len() == 3
                && rules[0] == RuleV::MatchesOp(Operator::SumBelow(x), cs) && rules[1]
                == RuleV::MatchesOp(Operator::SumEquals(x), cs) && rules[2] == RuleV::MatchesOp(
                Operator::SumAbove(x),
                cs,
            )) || (desc == "Sum of "@ + dec_chars(cs.len() as int) + " columns is "@ + op_word(op)
                + seq![' '] + dec_chars(x as int) && combination_group(
                rules,
                op,
                cs.len() as int,
                gc,
            )),
        },
        RuleV::XColumnsEquals(count, value) => desc == "There are X columns that equals "@
            + dec_chars(value as int) && rules.len() == gc.column_count + 1 && (forall|i: int|
            0 <= i < rules.len() ==> #[trigger] rules[i] == RuleV::XColumnsEquals(
                i as u8,
                value,
            )),
    }
}

impl Rule {
    /// One rule of `op` for every column subset of `size` members.
    fn ops_over_combinations(op: Operator, size: u8, gc: &GameConfiguration) -> (r: Rules)
        requires
            size >= 1,
        ensures
            r@.len() < vstd::arithmetic::power::pow(2, gc.column_count as nat),
            forall|k: int|
                0 <= k < r@.len() ==> rule_valid(#[trigger] r@[k], *gc) && is_op_rule(
                    r@[k],
                    op,
                    size as int,
                ),
            forall|s: Seq<u8>|
                valid_subset(s, gc.column_count) && s.len() == size ==> #[trigger] contains_rule(
                    r@,
                    RuleV::MatchesOp(op, s),
                ),
            combination_group(r@, op, size as int, *gc),
    {
        let combos = gc.get_column_combinations(size);
        let mut list: Vec<Rule> = Vec::new();
        let mut i: usize = 0;
        while i < combos.len()
            invariant
                i <= combos@.len(),
                forall|k: int|
                    0 <= k < combos@.len() ==> ((#[trigger] combos@[k]).wf() && combos@[k]@.len()
                        == size && combos@[k].bounded(gc.column_count)),
                list@.len() == i,
                forall|k: int| 0 <= k < i ==> list@[k]@ == RuleV::MatchesOp(op, combos@[k]@),
            decreases combos@.len() - i,
        {
            list.push(Rule::MatchesOp(op, combos[i].clone()));
            i = i + 1;
        }
        let r = Rules(list);
        proof {
            assert(forall|k: int| 0 <= k < r@.len() ==> r@[k] == list@[k]@);
            assert forall|k: int| 0 <= k < r@.len() implies rule_valid(#[trigger] r@[k], *gc)
                && is_op_rule(r@[k], op, size as int) by {
                assert(r@[k] == RuleV::MatchesOp(op, combos@[k]@));
            }
            assert forall|s: Seq<u8>|
                valid_subset(s, gc.column_count) && s.len()
                    == size implies #[trigger] contains_rule(r@, RuleV::MatchesOp(op, s)) by {
                assert(contains_subset(combos@, s));
                let m = choose|m: int| 0 <= m < combos@.len() && combos@[m]@ == s;
                assert(r@[m] == RuleV::MatchesOp(op, s));
            }
            assert forall|i1: int, i2: int| 0 <= i1 < i2 < r@.len() implies r@[i1] != r@[i2] by {
                assert(r@[i1] == RuleV::MatchesOp(op, combos@[i1]@));
                assert(r@[i2] == RuleV::MatchesOp(op, combos@[i2]@));
                assert(combos@[i1]@ != combos@[i2]@);
            }
            assert(combination_group(r@, op, size as int, *gc));
        }
        r
    }

    /// The similar-rule groups offered for this rule: each group is a
    /// description and a list of same-family phrasings that includes the
    /// rule itself.
    pub fn get_similar(&self, gc: &GameConfiguration) -> (r: Vec<(String, Rules)>)
        requires
            gc.wf(),
            rule_valid(self@, *gc),
        ensures
            similar_groups_wf(self@, r@, *gc),
            forall|g: int|
                0 <= g < r@.len() ==> similar_group_of(self@, *gc, (#[trigger] r@[g]).0@, r@[g].1@),
            (match self@ {
                RuleV::MatchesOp(op, cs) => match op {
                    Operator::Pair => r@.len() == 2 && r@[0].1@.len() == 2 && r@[0].1@[0]
                        == RuleV::MatchesOp(Operator::Pair, cs) && r@[0].1@[1]
                        == RuleV::MatchesOp(Operator::Impair, cs) && (forall|s: Seq<u8>|
                        valid_subset(s, gc.column_count) && s.len() == cs.len()
                            ==> #[trigger] contains_rule(r@[1].1@, RuleV::MatchesOp(op, s))),
                    Operator::Impair => r@.len() == 2 && r@[0].1@.len() == 2 && r@[0].1@[0]
                        == RuleV::MatchesOp(Operator::Pair, cs) && r@[0].1@[1]
                        == RuleV::MatchesOp(Operator::Impair, cs) && (forall|s: Seq<u8>|
                        valid_subset(s, gc.column_count) && s.len() == cs.len()
                            ==> #[trigger] contains_rule(r@[1].1@, RuleV::MatchesOp(op, s))),
                    Operator::Lowest => r@.len() == 1 && (forall|s: Seq<u8>|
                        valid_subset(s, gc.column_count) && s.len() == cs.len()
                            ==> #[trigger] contains_rule(r@[0].1@, RuleV::MatchesOp(op, s))),
                    Operator::Highest => r@.len() == 1 && (forall|s: Seq<u8>|
                        valid_subset(s, gc.column_count) && s.len() == cs.len()
                            ==> #[trigger] contains_rule(r@[0].1@, RuleV::MatchesOp(op, s))),
                    Operator::SumBelow(x) => r@.len() == 2 && r@[0].1@.len() == 3 && r@[0].1@[0]
                        == RuleV::MatchesOp(Operator::SumBelow(x), cs) && r@[0].1@[1]
                        == RuleV::MatchesOp(Operator::SumEquals(x), cs) && r@[0].1@[2]
                        == RuleV::MatchesOp(Operator::SumAbove(x), cs) && (forall|s: Seq<u8>|
                        valid_subset(s, gc.column_count) && s.len() == cs.len()
                            ==> #[trigger] contains_rule(r@[1].1@, RuleV::MatchesOp(op, s))),
                    Operator::SumEquals(x) => r@.len() == 2 && r@[0].1@.len() == 3 && r@[0].1@[0]
                        == RuleV::MatchesOp(Operator::SumBelow(x), cs) && r@[0].1@[1]
                        == RuleV::MatchesOp(Operator::SumEquals(x), cs) && r@[0].1@[2]
                        == RuleV::MatchesOp(Operator::SumAbove(x), cs) && (forall|s: Seq<u8>|
                        valid_subset(s, gc.column_count) && s.len() == cs.len()
                            ==> #[trigger] contains_rule(r@[1].1@, RuleV::MatchesOp(op, s))),
                    Operator::SumAbove(x) => r@.len() == 2 && r@[0].1@.len() == 3 && r@[0].1@[0]
                        == RuleV::MatchesOp(Operator::SumBelow(x), cs) && r@[0].1@[1]
                        == RuleV::MatchesOp(Operator::SumEquals(x), cs) && r@[0].1@[2]
                        == RuleV::MatchesOp(Operator::SumAbove(x), cs) && (forall|s: Seq<u8>|
                        valid_subset(s, gc.column_count) && s.len() == cs.len()
                            ==> #[trigger] contains_rule(r@[1].1@, RuleV::MatchesOp(op, s))),
                },
                RuleV::XColumnsEquals(count, value) => r@.len() == 1 && r@[0].1@.len()
                    == gc.column_count + 1 && (forall|i: int|
                    0 <= i < r@[0].1@.len() ==> #[trigger] r@[0].1@[i] == RuleV::XColumnsEquals(
                        i as u8,
                        value,
                    )),
            }),
    {
        let mut v: Vec<(String, Rules)> = Vec::new();
        match self {
            Rule::MatchesOp(op, columns) => {
                proof {
                    lemma_sorted_len_le_bound(columns@, gc.column_count as int);
                }
                let size = columns.len() as u8;
                match op {
                    Operator::Pair | Operator::Impair => {
                        let mut list0: Vec<Rule> = Vec::new();
                        list0.push(Rule::MatchesOp(Operator::Pair, columns.clone()));
                        list0.push(Rule::MatchesOp(Operator::Impair, columns.clone()));
                        let mut desc0 = String::new();
                        proof {
                            reveal_strlit("Column is pair or impair");
                            assert(ascii_seq("Column is pair or impair"@));
                        }
                        append_ascii(&mut desc0, "Column is pair or impair");
                        v.push((desc0, Rules(list0)));
                        let group1 = Self::ops_over_combinations(*op, size, gc);
                        let mut desc1 = String::new();
                        proof {
                            reveal_strlit("One of the column is pair");
                            assert(ascii_seq("One of the column is pair"@));
                        }
                        append_ascii(&mut desc1, "One of the column is pair");
                        v.push((desc1, group1));
                        proof {
                            assert(v@[0].1@.len() == 2);
                            assert(v@[0].1@[0] == RuleV::MatchesOp(Operator::Pair, columns@));
                            assert(v@[0].1@[1] == RuleV::MatchesOp(Operator::Impair, columns@));
                            assert(contains_rule(v@[0].1@, self@));
                            assert(valid_subset(columns@, gc.column_count));
                            assert(contains_rule(v@[1].1@, RuleV::MatchesOp(*op, columns@)));
                            assert(v@[0].0@ =~= "Column is pair or impair"@);
                            assert(v@[1].0@ =~= "One of the column is pair"@);
                            assert(size as int == columns@.len());
                            assert(combination_group(v@[1].1@, *op, columns@.len() as int, *gc));
                            assert(similar_group_of(self@, *gc, v@[0].0@, v@[0].1@));
                            assert(similar_group_of(self@, *gc, v@[1].0@, v@[1].1@));
                        }
                    },
                    Operator::Lowest | Operator::Highest => {
                        let group0 = Self::ops_over_combinations(*op, size, gc);
                        let mut desc0 = String::new();
                        if matches!(op, Operator::Lowest) {
                            proof {
                                reveal_strlit("One of the column is the lowest");
                                assert(ascii_seq("One of the column is the lowest"@));
                            }
                            append_ascii(&mut desc0, "One of the column is the lowest");
                        } else {
                            proof {
                                reveal_strlit("One of the column is the highest");
                                assert(ascii_seq("One of the column is the highest"@));
                            }
                            append_ascii(&mut desc0, "One of the column is the highest");
                        }
                        v.push((desc0, group0));
                        proof {
                            assert(valid_subset(columns@, gc.column_count));
                            assert(contains_rule(v@[0].1@, RuleV::MatchesOp(*op, columns@)));
                            if matches!(op, Operator::Lowest) {
                                assert(v@[0].0@ =~= "One of the column is the lowest"@);
                            } else {
                                assert(v@[0].0@ =~= "One of the column is the highest"@);
                            }
                            assert(size as int == columns@.len());
                            assert(combination_group(v@[0].1@, *op, columns@.len() as int, *gc));
                            assert(similar_group_of(self@, *gc, v@[0].0@, v@[0].1@));
                        }
                    },
                    Operator::SumBelow(value) | Operator::SumEquals(value) | Operator::SumAbove(
                        value,
                    ) => {
                        let mut list0: Vec<Rule> = Vec::new();
                        list0.push(Rule::MatchesOp(Operator::SumBelow(*value), columns.clone()));
                        list0.push(Rule::MatchesOp(Operator::SumEquals(*value), columns.clone()));
                        list0.push(Rule::MatchesOp(Operator::SumAbove(*value), columns.clone()));
                        let mut desc0 = String::new();
                        proof {
                            reveal_strlit("Column(s) ");
                            assert(ascii_seq("Column(s) "@));
                        }
                        append_ascii(&mut desc0, "Column(s) ");
                        let cols = columns.display_string();
                        append_ascii(&mut desc0, cols.as_str());
                        proof {
                            reveal_strlit(" sum is below, equal or above ");
                            assert(ascii_seq(" sum is below, equal or above "@));
                        }
                        append_ascii(&mut desc0, " sum is below, equal or above ");
                        push_u8_decimal(&mut desc0, *value);
                        v.push((desc0, Rules(list0)));
                        let group1 = Self::ops_over_combinations(*op, size, gc);
                        let mut desc1 = String::new();
                        proof {
                            reveal_strlit("Sum of ");
                            assert(ascii_seq("Sum of "@));
                        }
                        append_ascii(&mut desc1, "Sum of ");
                        push_u8_decimal(&mut desc1, size);
                        proof {
                            reveal_strlit(" columns is ");
                            assert(ascii_seq(" columns is "@));
                        }
                        append_ascii(&mut desc1, " columns is ");
                        let word = op.display_string();
                        append_ascii(&mut desc1, word.as_str());
                        proof {
                            assert(ascii_seq(desc1@));
                            lemma_ascii_push(desc1@, ' ');
                        }
                        string_push(&mut desc1, ' ');
                        push_u8_decimal(&mut desc1, *value);
                        v.push((desc1, group1));
                        proof {
                            assert(v@[0].1@.len() == 3);
                            assert(v@[0].1@[0] == RuleV::MatchesOp(
                                Operator::SumBelow(*value),
                                columns@,
                            ));
                            assert(v@[0].1@[1] == RuleV::MatchesOp(
                                Operator::SumEquals(*value),
                                columns@,
                            ));
                            assert(v@[0].1@[2] == RuleV::MatchesOp(
                                Operator::SumAbove(*value),
                                columns@,
                            ));
                            assert(contains_rule(v@[0].1@, self@));
                            assert(valid_subset(columns@, gc.column_count));
                            assert(contains_rule(v@[1].1@, RuleV::MatchesOp(*op, columns@)));
                            assert(v@[0].0@ =~= "Column(s) "@ + cols_display_chars(columns@)
                                + " sum is below, equal or above "@ + dec_chars(*value as int));
                            assert(size as int == columns@.len());
                            assert(v@[1].0@ =~= "Sum of "@ + dec_chars(columns@.len() as int)
                                + " columns is "@ + op_word(*op) + seq![' '] + dec_chars(
                                *value as int,
                            ));
                            assert(combination_group(v@[1].1@, *op, columns@.len() as int, *gc));
                            assert(similar_group_of(self@, *gc, v@[0].0@, v@[0].1@));
                            assert(similar_group_of(self@, *gc, v@[1].0@, v@[1].1@));
                        }
                    },
                }
            },
            Rule::XColumnsEquals(count, value) => {
                let mut list: Vec<Rule> = Vec::new();
                let mut i: u16 = 0;
                while i <= gc.column_count as u16
                    invariant
                        i <= gc.column_count as u16 + 1,
                        list@.len() == i,
                        forall|k: int|
                            0 <= k < i ==> #[trigger] list@[k]@ == RuleV::XColumnsEquals(
                                k as u8,
                                *value,
                            ),
                    decreases gc.column_count as u16 + 1 - i,
                {
                    list.push(Rule::XColumnsEquals(i as u8, *value));
                    i = i + 1;
                }
                let mut desc = String::new();
                proof {
                    reveal_strlit("There are X columns that equals ");
                    assert(ascii_seq("There are X columns that equals "@));
                }
                append_ascii(&mut desc, "There are X columns that equals ");
                push_u8_decimal(&mut desc, *value);
                v.push((desc, Rules(list)));
                proof {
                    assert(forall|k: int|
                        0 <= k < v@[0].1@.len() ==> v@[0].1@[k] == list@[k]@);
                    assert(v@[0].1@[*count as int] == self@);
                    assert(contains_rule(v@[0].1@, self@));
                    assert(v@[0].0@ =~= "There are X columns that equals "@ + dec_chars(
                        *value as int,
                    ));
                    assert forall|k: int|
                        0 <= k < v@[0].1@.len() implies #[trigger] v@[0].1@[k]
                        == RuleV::XColumnsEquals(k as u8, *value) by {
                        assert(v@[0].1@[k] == list@[k]@);
                    }
                    assert(similar_group_of(self@, *gc, v@[0].0@, v@[0].1@));
                }
            },
        }
        proof {
            assert forall|g: int, i: int|
                #![trigger v@[g].1@[i]]
                0 <= g < v@.len() && 0 <= i < v@[g].1@.len() implies rule_valid(
                v@[g].1@[i],
                *gc,
            ) && same_family(v@[g].1@[i], self@) by {}
            assert forall|g: int| 0 <= g < v@.len() implies ascii_seq((#[trigger] v@[g]).0@) by {}
            assert forall|g: int|
                0 <= g < v@.len() implies (#[trigger] v@[g]).0@.len() < 0x1_0000_0000 by {}
            assert forall|g: int|
                0 <= g < v@.len() implies (#[trigger] v@[g]).1@.len() < 0x1_0000_0000 by {
                crate::code::lemma_pow2_31();
                vstd::arithmetic::power::lemma_pow_increases(
                    2,
                    gc.column_count as nat,
                    31,
                );
            }
        }
        v
    }
}
} // verus!
