//! Plain-text rendering of the library's values.
//!
//! Nothing here carries puzzle logic: these functions only build the strings
//! that a terminal front end prints.

use vstd::prelude::*;

use crate::bitmask::BitMask;
use crate::column::Column;
use crate::code::Code;
use crate::columns::ColumnSet;
use crate::rule::{Operator, Rule};
use crate::rules::Rules;
use crate::verifiers::{Verificators, Verifier};

verus! {

/// A character below 128, encodable as one ASCII byte.
pub open spec fn ascii_char_ok(c: char) -> bool {
    (c as u32) < 128
}

/// A text of characters below 128.
pub open spec fn ascii_seq(s: Seq<char>) -> bool {
    forall|i: int| 0 <= i < s.len() ==> ascii_char_ok(#[trigger] s[i])
}

/// ASCII text stays ASCII under appending an ASCII character.
pub proof fn lemma_ascii_push(s: Seq<char>, c: char)
    requires
        ascii_seq(s),
        ascii_char_ok(c),
    ensures
        ascii_seq(s.push(c)),
{
    assert forall|i: int| 0 <= i < s.push(c).len() implies ascii_char_ok(
        #[trigger] s.push(c)[i],
    ) by {
        if i < s.len() {
            assert(s.push(c)[i] == s[i]);
        }
    }
}

/// ASCII texts concatenate to ASCII text.
pub proof fn lemma_ascii_concat(a: Seq<char>, b: Seq<char>)
    requires
        ascii_seq(a),
        ascii_seq(b),
    ensures
        ascii_seq(a + b),
{
    assert forall|i: int| 0 <= i < (a + b).len() implies ascii_char_ok(#[trigger] (a + b)[i]) by {
        if i < a.len() {
            assert((a + b)[i] == a[i]);
        } else {
            assert((a + b)[i] == b[i - a.len()]);
        }
    }
}

/// The decimal digit character of a value below ten.
pub open spec fn digit_char_at(d: int) -> char {
    "0123456789"@[d]
}

/// The decimal digits of a byte value, most significant first.
pub open spec fn dec_chars(v: int) -> Seq<char> {
    if v < 10 {
        seq![digit_char_at(v)]
    } else if v < 100 {
        seq![digit_char_at(v / 10), digit_char_at(v % 10)]
    } else {
        seq![digit_char_at(v / 100), digit_char_at(v / 10 % 10), digit_char_at(v % 10)]
    }
}

/// The word a clue uses for an operator.
pub open spec fn op_word(op: Operator) -> Seq<char> {
    match op {
        Operator::Pair => "even"@,
        Operator::Impair => "odd"@,
        Operator::Lowest => "lowest"@,
        Operator::Highest => "highest"@,
        Operator::SumBelow(x) => "below"@,
        Operator::SumEquals(x) => "equal to"@,
        Operator::SumAbove(x) => "above"@,
    }
}

/// The comma-separated letters of a column set.
pub open spec fn cols_inner_chars(cs: Seq<u8>) -> Seq<char>
    decreases cs.len(),
{
    if cs.len() == 0 {
        Seq::empty()
    } else if cs.len() == 1 {
        seq![crate::column::col_letter(cs[0])]
    } else {
        cols_inner_chars(cs.drop_last()) + ", "@ + seq![crate::column::col_letter(cs.last())]
    }
}

/// A column set as displayed: its letters, bracketed.
pub open spec fn cols_display_chars(cs: Seq<u8>) -> Seq<char> {
    "["@ + cols_inner_chars(cs) + "]"@
}

/// Relies on std's `String::push`: appends exactly one character.
#[verifier::external_body]
pub(crate) fn string_push(s: &mut String, c: char)
    ensures
        final (s)@ == old(s)@.push(c),
{
    s.push(c);
}

/// Appends an ASCII string slice.
pub(crate) fn append_ascii(s: &mut String, t: &str)
    requires
        ascii_seq(t@),
    ensures
        final (s)@ == old(s)@ + t@,
        ascii_seq(old(s)@) ==> ascii_seq(final (s)@),
{
    proof {
        if ascii_seq(s@) {
            lemma_ascii_concat(s@, t@);
        }
    }
    s.append(t);
}

/// The decimal digit character for a value below ten.
pub(crate) fn digit_char(d: u8) -> (r: char)
    requires
        d < 10,
    ensures
        r == digit_char_at(d as int),
        ascii_char_ok(r),
{
    proof {
        reveal_strlit("0123456789");
        assert(ascii_seq("0123456789"@));
    }
    let digits = "0123456789";
    digits.get_char(d as usize)
}

/// Appends the decimal digits of a machine integer.
pub(crate) fn push_u32_decimal(s: &mut String, v: u32)
    ensures
        ascii_seq(old(s)@) ==> ascii_seq(final (s)@),
{
    let ghost was_ascii = ascii_seq(s@);
    if v == 0 {
        let c = digit_char(0);
        proof {
            if was_ascii {
                lemma_ascii_push(s@, c);
            }
        }
        string_push(s, c);
        return;
    }
    let mut digits: Vec<u8> = Vec::new();
    let mut rest = v;
    while rest > 0
        invariant
            forall|k: int| 0 <= k < digits@.len() ==> digits@[k] < 10,
        decreases rest,
    {
        digits.push((rest % 10) as u8);
        rest = rest / 10;
    }
    let mut i: usize = digits.len();
    while i > 0
        invariant
            i <= digits@.len(),
            forall|k: int| 0 <= k < digits@.len() ==> digits@[k] < 10,
            was_ascii ==> ascii_seq(s@),
        decreases i,
    {
        i = i - 1;
        let c = digit_char(digits[i]);
        proof {
            if was_ascii {
                lemma_ascii_push(s@, c);
            }
        }
        string_push(s, c);
    }
}

/// Appends the decimal digits of a byte value.
pub(crate) fn push_u8_decimal(s: &mut String, v: u8)
    ensures
        final (s)@ == old(s)@ + dec_chars(v as int),
        ascii_seq(old(s)@) ==> ascii_seq(final (s)@),
        final (s)@.len() <= old(s)@.len() + 3,
{
    let ghost start = s@;
    let ghost was_ascii = ascii_seq(s@);
    if v >= 100 {
        let c = digit_char(v / 100);
        proof {
            if ascii_seq(s@) {
                lemma_ascii_push(s@, c);
            }
        }
        string_push(s, c);
    }
    if v >= 10 {
        let c = digit_char((v / 10) % 10);
        proof {
            if ascii_seq(s@) {
                lemma_ascii_push(s@, c);
            }
        }
        string_push(s, c);
    }
    let c = digit_char(v % 10);
    proof {
        if ascii_seq(s@) {
            lemma_ascii_push(s@, c);
        }
    }
    string_push(s, c);
    proof {
        assert(s@ =~= start + dec_chars(v as int));
    }
}

impl Column {
    /// The column as its display letter.
    pub fn display_string(&self) -> String {
        let mut s = String::new();
        let c = self.letter();
        string_push(&mut s, c);
        s
    }
}

impl ColumnSet {
    /// The set as a bracketed list of letters, e.g. `[A, B]`.
    pub fn display_string(&self) -> (r: String)
        ensures
            r@ == cols_display_chars(self@),
            ascii_seq(r@),
            r@.len() <= 2 + 3 * self@.len(),
    {
        let mut s = String::new();
        proof {
            reveal_strlit("[");
            reveal_strlit("]");
            assert(ascii_char_ok('['));
            lemma_ascii_push(s@, '[');
        }
        string_push(&mut s, '[');
        let mut i: usize = 0;
        proof {
            assert(self@.take(0) =~= Seq::<u8>::empty());
            assert(s@ =~= "["@ + cols_inner_chars(self@.take(0)));
        }
        while i < self.0.len()
            invariant
                i <= self@.len(),
                ascii_seq(s@),
                s@.len() <= 1 + 3 * i,
                s@ == "["@ + cols_inner_chars(self@.take(i as int)),
            decreases self.0.len() - i,
        {
            let ghost pre = self@.take(i as int);
            let ghost nxt = self@.take(i + 1);
            proof {
                assert(nxt.drop_last() =~= pre);
                assert(nxt.last() == self@[i as int]);
            }
            if i > 0 {
                proof {
                    reveal_strlit(", ");
                    assert(ascii_seq(", "@));
                }
                append_ascii(&mut s, ", ");
            }
            let c = self.0[i].letter();
            proof {
                assert(c == crate::column::col_letter(self@[i as int]));
                lemma_ascii_push(s@, c);
            }
            string_push(&mut s, c);
            proof {
                if i == 0 {
                    assert(cols_inner_chars(nxt) =~= seq![crate::column::col_letter(nxt[0])]);
                    assert(s@ =~= "["@ + cols_inner_chars(nxt));
                } else {
                    assert(cols_inner_chars(nxt) == cols_inner_chars(pre) + ", "@ + seq![
                        crate::column::col_letter(nxt.last()),
                    ]);
                    assert(s@ =~= "["@ + cols_inner_chars(nxt));
                }
            }
            i = i + 1;
        }
        proof {
            reveal_strlit("]");
            assert(self@.take(self@.len() as int) =~= self@);
            assert(ascii_char_ok(']'));
            lemma_ascii_push(s@, ']');
        }
        string_push(&mut s, ']');
        proof {
            assert(s@ =~= cols_display_chars(self@));
        }
        s
    }
}

impl Code {
    /// The code as its digits, concatenated.
    pub fn display_string(&self) -> String {
        let mut s = String::new();
        let mut i: usize = 0;
        while i < self.0.len()
            decreases self.0.len() - i,
        {
            push_u8_decimal(&mut s, self.0[i]);
            i = i + 1;
        }
        s
    }
}

impl Operator {
    /// The operator as the word a clue uses for it.
    pub fn display_string(&self) -> (r: String)
        ensures
            r@ == op_word(*self),
            ascii_seq(r@),
            r@.len() <= 8,
    {
        proof {
            reveal_strlit("even");
            reveal_strlit("odd");
            reveal_strlit("lowest");
            reveal_strlit("highest");
            reveal_strlit("below");
            reveal_strlit("equal to");
            reveal_strlit("above");
        }
        match self {
            Operator::Pair => String::from_str("even"),
            Operator::Impair => String::from_str("odd"),
            Operator::Lowest => String::from_str("lowest"),
            Operator::Highest => String::from_str("highest"),
            Operator::SumBelow(_) => String::from_str("below"),
            Operator::SumEquals(_) => String::from_str("equal to"),
            Operator::SumAbove(_) => String::from_str("above"),
        }
    }
}

impl Rule {
    /// The rule in its symbolic notation, e.g. `IsPair([A])`.
    pub fn display_string(&self) -> String {
        let mut s = String::new();
        match self {
            Rule::XColumnsEquals(count, value) => {
                s.append("XColumnsEquals(");
                push_u8_decimal(&mut s, *count);
                s.append(", ");
                push_u8_decimal(&mut s, *value);
                s.append(")");
            },
            Rule::MatchesOp(op, columns) => {
                match op {
                    Operator::Lowest => s.append("IsLowest("),
                    Operator::Highest => s.append("IsHighest("),
                    Operator::Pair => s.append("IsPair("),
                    Operator::Impair => s.append("IsImpair("),
                    Operator::SumBelow(_) => s.append("SumBelow("),
                    Operator::SumEquals(_) => s.append("SumEquals("),
                    Operator::SumAbove(_) => s.append("SumAbove("),
                }
                let cols = columns.display_string();
                s.append(cols.as_str());
                match op {
                    Operator::SumBelow(value) => {
                        s.append(", ");
                        push_u8_decimal(&mut s, *value);
                    },
                    Operator::SumEquals(value) => {
                        s.append(", ");
                        push_u8_decimal(&mut s, *value);
                    },
                    Operator::SumAbove(value) => {
                        s.append(", ");
                        push_u8_decimal(&mut s, *value);
                    },
                    _ => {},
                }
                s.append(")");
            },
        }
        s
    }
}

impl BitMask {
    /// The mask as `0` and `1` characters, lowest bit first.
    pub fn display_string(&self) -> String {
        let mut s = String::new();
        let mut i: usize = 0;
        while i < self.len()
            decreases self@.len() - i,
        {
            if self.bit(i) {
                string_push(&mut s, '1');
            } else {
                string_push(&mut s, '0');
            }
            i = i + 1;
        }
        s
    }
}

/// Fixed-width terminal formatting.
pub trait TermFormat {
    /// The value as a line (or lines) for a terminal.
    fn formatted(&self) -> String;
}

/// Pads a string with spaces on the right up to 25 characters.
fn pad_to_width(s: String) -> String {
    let mut s = s;
    while s.as_str().unicode_len() < 25
        decreases 25 - s@.len(),
    {
        proof {
            reveal_strlit(" ");
        }
        s.append(" ");
    }
    s
}

impl TermFormat for Rule {
    fn formatted(&self) -> String {
        pad_to_width(self.display_string())
    }
}

impl TermFormat for Rules {
    fn formatted(&self) -> String {
        let mut s = String::new();
        let mut i: usize = 0;
        while i < self.0.len()
            decreases self.0.len() - i,
        {
            let line = self.0[i].formatted();
            s.append(line.as_str());
            string_push(&mut s, '\n');
            i = i + 1;
        }
        s
    }
}

impl TermFormat for Verifier {
    fn formatted(&self) -> String {
        let mut s = self.rule.formatted();
        s.append(": ");
        let mask = self.mask.display_string();
        s.append(mask.as_str());
        s.append(" (");
        let ones = self.mask.count_ones();
        if ones <= u32::MAX as usize {
            push_u32_decimal(&mut s, ones as u32);
        }
        s.append(")");
        string_push(&mut s, '\n');
        s
    }
}

impl TermFormat for Verificators {
    fn formatted(&self) -> String {
        let mut s = String::new();
        let mut i: usize = 0;
        while i < self.0.len()
            decreases self.0.len() - i,
        {
            let line = self.0[i].formatted();
            s.append(line.as_str());
            i = i + 1;
        }
        s
    }
}

} // verus!
