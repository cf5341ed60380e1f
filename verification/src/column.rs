//! A digit position within a code.

use vstd::prelude::*;

use crate::term_format::{ascii_char_ok, ascii_seq};

verus! {

/// A single digit position within a code, counted from zero and displayed as
/// a letter (`A`, `B`, ...).
#[derive(Debug, Clone, Copy, PartialEq, Eq, Structural)]
pub struct Column(pub u8);

impl Column {
    /// The position as a plain index.
    pub fn index(&self) -> (r: u8)
        ensures
            r == self.0,
    {
        self.0
    }

    /// The letter that displays this column: `A` for index 0 and so on.
    /// Indices past the letter alphabet are flagged with `?`.
    pub fn letter(&self) -> (r: char)
        ensures
            r == col_letter(self.0),
            ascii_char_ok(r),
    {
        if self.0 < 26 {
            proof {
                reveal_strlit("ABCDEFGHIJKLMNOPQRSTUVWXYZ");
                assert(ascii_seq("ABCDEFGHIJKLMNOPQRSTUVWXYZ"@));
            }
            let letters = "ABCDEFGHIJKLMNOPQRSTUVWXYZ";
            letters.get_char(self.0 as usize)
        } else {
            proof {
                assert(ascii_char_ok('?'));
            }
            '?'
        }
    }
}

/// The display letter of a column index: the letter alphabet for indices
/// below 26, `?` beyond it.
pub open spec fn col_letter(i: u8) -> char {
    if i < 26 {
        "ABCDEFGHIJKLMNOPQRSTUVWXYZ"@[i as int]
    } else {
        '?'
    }
}

impl From<u8> for Column {
    /// A column at the given index.
    fn from(v: u8) -> (r: Self) {
        Column(v)
    }
}

impl vstd::std_specs::convert::FromSpecImpl<u8> for Column {
    open spec fn obeys_from_spec() -> bool {
        true
    }

    open spec fn from_spec(v: u8) -> Self {
        Column(v)
    }
}

impl From<Column> for u8 {
    /// The index of the column.
    fn from(c: Column) -> (r: u8) {
        c.0
    }
}

impl vstd::std_specs::convert::FromSpecImpl<Column> for u8 {
    open spec fn obeys_from_spec() -> bool {
        true
    }

    open spec fn from_spec(c: Column) -> u8 {
        c.0
    }
}

impl From<Column> for usize {
    /// The index of the column.
    fn from(c: Column) -> (r: usize) {
        c.0 as usize
    }
}

impl vstd::std_specs::convert::FromSpecImpl<Column> for usize {
    open spec fn obeys_from_spec() -> bool {
        true
    }

    open spec fn from_spec(c: Column) -> usize {
        c.0 as usize
    }
}

} // verus!
