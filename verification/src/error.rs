//! What can go wrong between the upstream answer and the summary.

use vstd::prelude::*;

verus! {

/// Why a request could not be answered with a summary.
#[derive(Clone, Copy, Debug, PartialEq, Eq, Structural)]
pub enum ServiceError {
    /// The upstream data could not be fetched.
    FetchFailure,
    /// The upstream answer is no JSON document of the expected shape.
    ParseFailure,
    /// A closing price is no decimal number.
    NumericParseFailure,
    /// There is no closing price to average.
    DivisionByZero,
    /// The sum or the average does not fit a decimal.
    Overflow,
}

} // verus!
