//! Error kinds of the preparation stages.
use vstd::prelude::*;

verus! {

/// Why a preparation stage refused its input.
#[derive(Clone, Copy, Debug, PartialEq, Eq)]
pub enum PrepError {
    /// The operation needs at least one element.
    EmptyInput,
    /// Standardisation was asked for with a zero spread.
    DivisionByZero,
    /// A train fraction outside `[0, 1]`.
    InvalidFraction,
}

} // verus!
