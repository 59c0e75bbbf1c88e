//! The failure kinds the analyses report. All are deterministic
//! functions of the input: none is worth retrying on the same data.

use vstd::prelude::*;

verus! {

/// A typed failure of one of the analyses.
#[derive(Clone, Copy, Debug, PartialEq, Eq, Structural)]
pub enum AnalysisError {
    /// An `activity_period` field does not parse as a calendar period.
    MalformedPeriod,
    /// Fewer than two distinct calendar months were observed, so a
    /// regression line cannot be fitted.
    InsufficientData,
    /// The regression denominator is zero: all month indices coincide.
    DegenerateRegression,
    /// The graph has exactly one node, so the centrality divisor is zero.
    UndefinedCentrality,
}

} // verus!
