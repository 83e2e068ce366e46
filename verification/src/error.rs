use vstd::prelude::*;

verus! {

/// The failure taxonomy of the analysis core.
///
/// Every public analysis operation returns either its result payload or
/// one of these tagged reasons; no operation panics on any input.
#[derive(Clone, Copy, Debug, PartialEq, Eq, Structural)]
pub enum StatError {
    /// Missing or empty column selection, a column of the wrong type, or
    /// mismatched vector lengths.
    InputError,
    /// Fewer observations than the procedure requires (for example
    /// `n <= p` in a regression, or fewer than two values in a group).
    SampleSizeError,
    /// A categorical factor with fewer than two observed levels, or a
    /// grouping column whose level count is not exactly two.
    DegenerateFactorError,
    /// A linear system whose matrix is singular (collinear regressors) or
    /// a decomposition that does not exist.
    SingularMatrixError,
    /// A selected numeric quantity has zero variance where a nonzero one
    /// is required, making the statistic undefined.
    ZeroVarianceError,
    /// An exact rational intermediate no longer fits in 128-bit integers.
    OverflowError,
}

} // verus!
