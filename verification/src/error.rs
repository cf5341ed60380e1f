//! Errors of the puzzle generator.

use vstd::prelude::*;

use crate::bitmask::BitMaskError;

verus! {

/// Every failure the generator can report.
#[derive(Clone, Copy, Debug, PartialEq, Eq, Structural)]
pub enum EnigmindError {
    /// Propagated from the bit-vector, e.g. an index out of range during
    /// mask construction.
    BitmaskError(BitMaskError),
    /// A rule references a column index not present in the code under
    /// evaluation.
    ColumnIndexOutOfBounds,
    /// The randomized reduction exhausted its attempt budget without
    /// isolating a single candidate.
    GenerationFailed,
}

impl From<BitMaskError> for EnigmindError {
    /// Wraps a bit-vector error.
    fn from(value: BitMaskError) -> (r: Self) {
        EnigmindError::BitmaskError(value)
    }
}

impl vstd::std_specs::convert::FromSpecImpl<BitMaskError> for EnigmindError {
    open spec fn obeys_from_spec() -> bool {
        true
    }

    open spec fn from_spec(value: BitMaskError) -> Self {
        EnigmindError::BitmaskError(value)
    }
}

} // verus!
