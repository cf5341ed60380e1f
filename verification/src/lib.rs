//! Generator for a logic-deduction puzzle: a hidden code of digits together
//! with a minimal, non-redundant set of clues ("criterias") that identify
//! the code uniquely among all candidates, each clue wrapped in decoy
//! phrasings so its exact meaning stays hidden from the solver.
//!
//! The pipeline enumerates every distinguishable rule over a configuration,
//! filters the rules by difficulty, draws rules at random until their masks
//! cut the solution space down to a single candidate, prunes redundant
//! picks, and dresses each survivor as a criteria. Generation draws from a
//! caller-supplied random source, so runs are reproducible under a fixed
//! seed.

pub mod bitmask;
pub mod code;
pub mod codec;
pub mod column;
pub mod columns;
pub mod criteria;
pub mod criterias;
pub mod error;
pub mod rng;
pub mod rule;
pub mod rules;
pub mod setup;
pub mod term_format;
pub mod verifiers;
